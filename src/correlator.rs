use vstd::prelude::*;
use std::rc::Rc;
use crate::action::ActionType;
use crate::conditions::{Conditions, ConditionsView};
use crate::context::{step_message, step_timer, Context, ContextView, TimerEvent};
use crate::message::Message;
use crate::trie::{bindings_view, SuffixTable};

verus! {

/// An event at the dispatcher: a message or a timer tick.
pub enum Event {
    Message(Rc<Message>),
    Timer(TimerEvent),
}

/// How a context's state moves on an event.
pub open spec fn step_event(s: ContextView, e: Event) -> (ContextView, bool) {
    match e {
        Event::Message(m) => step_message(s, m),
        Event::Timer(t) => step_timer(s, t.0),
    }
}

/// A context that has not opened yet.
pub open spec fn fresh(c: ConditionsView) -> ContextView {
    ContextView {
        conditions: c,
        opened: false,
        elapsed_time: 0,
        elapsed_since_last_message: 0,
        messages: Seq::empty(),
    }
}

/// What becomes of a template's slot on an event: the open context left in
/// it, and the context that closed on the event.
pub open spec fn slot_after(slot: Option<ContextView>, c: ConditionsView, e: Event) -> (
    Option<ContextView>,
    Option<ContextView>,
) {
    let s = match slot {
        Some(v) => v,
        None => fresh(c),
    };
    let (t, closes) = step_event(s, e);
    if closes {
        (None, Some(t))
    } else if t.opened {
        (Some(t), None)
    } else {
        (None, None)
    }
}

/// The contexts of the first `n` slots that close on `e`, with their slot.
pub open spec fn closed_on(
    slots: Seq<Option<ContextView>>,
    conds: Seq<ConditionsView>,
    e: Event,
    n: int,
) -> Seq<(usize, ContextView)>
    decreases n,
{
    if n <= 0 {
        Seq::empty()
    } else {
        let rest = closed_on(slots, conds, e, n - 1);
        match slot_after(slots[n - 1], conds[n - 1], e).1 {
            Some(t) => rest.push(((n - 1) as usize, t)),
            None => rest,
        }
    }
}

/// The open contexts among the first `n` slots, with their slot.
pub open spec fn open_in(slots: Seq<Option<ContextView>>, n: int) -> Seq<(usize, ContextView)>
    decreases n,
{
    if n <= 0 {
        Seq::empty()
    } else {
        let rest = open_in(slots, n - 1);
        match slots[n - 1] {
            Some(t) => rest.push(((n - 1) as usize, t)),
            None => rest,
        }
    }
}

pub open spec fn slot_view(c: Option<Context>) -> Option<ContextView> {
    match c {
        Some(x) => Some(x@),
        None => None,
    }
}

pub open spec fn closed_view(r: Seq<(usize, Context)>) -> Seq<(usize, ContextView)> {
    r.map_values(|p: (usize, Context)| (p.0, p.1@))
}

/// A context as configured: its name, closing conditions and actions.
pub struct ContextTemplate {
    name: String,
    conditions: Conditions,
    actions: Vec<ActionType>,
}

impl ContextTemplate {
    pub fn new(name: String, conditions: Conditions, actions: Vec<ActionType>) -> (r: ContextTemplate)
        ensures
            r.spec_name() == name@,
            r.spec_conditions() == conditions@,
            r.spec_actions() == actions@,
    {
        ContextTemplate { name, conditions, actions }
    }

    pub closed spec fn spec_name(&self) -> Seq<char> {
        self.name@
    }

    pub closed spec fn spec_conditions(&self) -> ConditionsView {
        self.conditions@
    }

    pub closed spec fn spec_actions(&self) -> Seq<ActionType> {
        self.actions@
    }

    pub fn name(&self) -> (r: &String)
        ensures
            r@ == self.spec_name(),
    {
        &self.name
    }

    pub fn conditions(&self) -> (r: &Conditions)
        ensures
            r@ == self.spec_conditions(),
    {
        &self.conditions
    }

    pub fn actions(&self) -> (r: &Vec<ActionType>)
        ensures
            r@ == self.spec_actions(),
    {
        &self.actions
    }
}

/// The decisions of the correlator: one slot per template, holding the open
/// context of that template if there is one. The correlation key is the
/// template itself: a template has at most one open context at a time, and
/// every message goes to it until it closes. Each event goes to every slot;
/// the contexts that close on it leave their slot and are handed back.
pub struct Dispatcher {
    templates: Vec<ContextTemplate>,
    active: Vec<Option<Context>>,
}

impl Dispatcher {
    pub closed spec fn conds(&self) -> Seq<ConditionsView> {
        self.templates@.map_values(|t: ContextTemplate| t.conditions@)
    }

    pub closed spec fn slots(&self) -> Seq<Option<ContextView>> {
        self.active@.map_values(|c: Option<Context>| slot_view(c))
    }

    pub closed spec fn spec_templates(&self) -> Seq<ContextTemplate> {
        self.templates@
    }

    /// One slot per template; a context in a slot is open, well formed and
    /// has its template's conditions.
    pub closed spec fn wf(&self) -> bool {
        &&& self.active@.len() == self.templates@.len()
        &&& forall|i: int|
            0 <= i < self.active@.len() ==> match #[trigger] self.active@[i] {
                Some(c) => c@.wf() && c@.opened && c@.conditions == self.templates@[i].conditions@,
                None => true,
            }
    }

    pub fn new(templates: Vec<ContextTemplate>) -> (r: Dispatcher)
        ensures
            r.wf(),
            r.spec_templates() == templates@,
            r.slots().len() == templates@.len(),
            forall|i: int| 0 <= i < templates@.len() ==> r.slots()[i] is None,
    {
        let mut active: Vec<Option<Context>> = Vec::new();
        let mut i: usize = 0;
        while i < templates.len()
            invariant
                i <= templates@.len(),
                active@.len() == i,
                forall|j: int| 0 <= j < i ==> active@[j] is None,
            decreases templates@.len() - i,
        {
            active.push(None);
            i = i + 1;
        }
        Dispatcher { templates, active }
    }

    pub fn templates(&self) -> (r: &Vec<ContextTemplate>)
        ensures
            r@ == self.spec_templates(),
    {
        &self.templates
    }

    /// Hands `event` to every template's slot, opening a context where a
    /// message opens one. Returns the contexts that closed on it, in the
    /// order of their templates; their slots are left empty.
    pub fn on_event(&mut self, event: &Event) -> (r: Vec<(usize, Context)>)
        requires
            old(self).wf(),
        ensures
            final(self).wf(),
            final(self).spec_templates() == old(self).spec_templates(),
            final(self).slots().len() == old(self).slots().len(),
            forall|i: int|
                0 <= i < old(self).slots().len() ==> final(self).slots()[i] == slot_after(
                    old(self).slots()[i],
                    old(self).conds()[i],
                    *event,
                ).0,
            closed_view(r@) == closed_on(
                old(self).slots(),
                old(self).conds(),
                *event,
                old(self).slots().len() as int,
            ),
    {
        let ghost old_slots = self.slots();
        let ghost conds = self.conds();
        let mut closed: Vec<(usize, Context)> = Vec::new();
        let mut i: usize = 0;
        while i < self.active.len()
            invariant
                self.wf(),
                self.templates@ == old(self).templates@,
                conds == self.conds(),
                old_slots.len() == self.active@.len(),
                i <= self.active@.len(),
                forall|j: int| 0 <= j < i ==> self.slots()[j] == slot_after(old_slots[j], conds[j], *event).0,
                forall|j: int| i <= j < old_slots.len() ==> self.slots()[j] == old_slots[j],
                closed_view(closed@) == closed_on(old_slots, conds, *event, i as int),
            decreases self.active@.len() - i,
        {
            let ghost before = self.active@;
            let ghost before_slots = self.slots();
            let slot = self.active.remove(i);
            let mut ctx = match slot {
                Some(c) => c,
                None => Context::new(self.templates[i].conditions.copy()),
            };
            proof {
                assert(self.templates@[i as int].conditions@ == conds[i as int]);
                assert(old_slots[i as int] == slot_view(slot));
            }
            let ghost s0 = ctx@;
            proof {
                assert(s0 == (match old_slots[i as int] {
                    Some(v) => v,
                    None => fresh(conds[i as int]),
                }));
            }
            let closes = match event {
                Event::Message(m) => ctx.on_message(Rc::clone(m)),
                Event::Timer(t) => ctx.on_timer(t),
            };
            proof {
                assert((ctx@, closes) == step_event(s0, *event));
            }
            let kept: Option<Context> = if closes {
                let ghost c0 = closed@;
                closed.push((i, ctx));
                proof {
                    assert(closed_view(closed@) =~= closed_view(c0).push((i, ctx@)));
                }
                None
            } else if ctx.is_open() {
                Some(ctx)
            } else {
                None
            };
            self.active.insert(i, kept);
            proof {
                assert(self.active@ =~= before.update(i as int, kept));
                assert forall|j: int| 0 <= j < i + 1 implies self.slots()[j] == slot_after(
                    old_slots[j],
                    conds[j],
                    *event,
                ).0 by {
                    if j == i {
                        assert(self.active@[j] == kept);
                    } else {
                        assert(self.active@[j] == before[j]);
                        assert(before_slots[j] == slot_view(before[j]));
                    }
                }
            }
            i = i + 1;
        }
        closed
    }

    /// Empties every slot: the open contexts are handed back, in the order of
    /// their templates, to go through their actions as if they had closed.
    pub fn flush(&mut self) -> (r: Vec<(usize, Context)>)
        requires
            old(self).wf(),
        ensures
            final(self).wf(),
            final(self).spec_templates() == old(self).spec_templates(),
            final(self).slots().len() == old(self).slots().len(),
            forall|i: int| 0 <= i < final(self).slots().len() ==> final(self).slots()[i] is None,
            closed_view(r@) == open_in(old(self).slots(), old(self).slots().len() as int),
    {
        let ghost old_slots = self.slots();
        let mut closed: Vec<(usize, Context)> = Vec::new();
        let mut i: usize = 0;
        while i < self.active.len()
            invariant
                self.wf(),
                self.templates@ == old(self).templates@,
                old_slots.len() == self.active@.len(),
                i <= self.active@.len(),
                forall|j: int| 0 <= j < i ==> self.slots()[j] is None,
                forall|j: int| i <= j < old_slots.len() ==> self.slots()[j] == old_slots[j],
                closed_view(closed@) == open_in(old_slots, i as int),
            decreases self.active@.len() - i,
        {
            let ghost before = self.active@;
            let ghost before_slots = self.slots();
            let slot = self.active.remove(i);
            proof {
                assert(old_slots[i as int] == slot_view(slot));
            }
            if let Some(ctx) = slot {
                let ghost c0 = closed@;
                closed.push((i, ctx));
                proof {
                    assert(closed_view(closed@) =~= closed_view(c0).push((i, ctx@)));
                }
            }
            self.active.insert(i, None);
            proof {
                assert(self.active@ =~= before.update(i as int, None));
                assert forall|j: int| 0 <= j < i + 1 implies self.slots()[j] is None by {
                    if j == i {
                        assert(self.active@[j] == None::<Context>);
                    } else {
                        assert(self.active@[j] == before[j]);
                        assert(before_slots[j] == slot_view(before[j]));
                    }
                }
            }
            i = i + 1;
        }
        closed
    }
}

/// The message that a payload stands for: the uuid of the pattern that
/// matches it, with the values that the pattern's parsers bound. `None`
/// where no pattern matches.
pub fn classify(table: &SuffixTable, payload: &str) -> (r: Option<Message>)
    requires
        table.wf(),
    ensures
        r is Some <==> table.spec_parse(payload@) is Some,
        r is Some ==> r->Some_0.spec_uuid() == table.spec_parse(payload@)->Some_0.1,
        r is Some ==> bindings_view(r->Some_0.spec_pairs()) == table.spec_parse(payload@)->Some_0.0,
        r is Some ==> r->Some_0.spec_name() is None,
        r is Some ==> r->Some_0.spec_uuid().len() > 0,
{
    match table.parse(payload) {
        Some(m) => {
            let uuid = m.pattern().clone();
            let values = crate::trie::copy_pairs(m.values());
            Some(Message::from_parts(uuid, None, values))
        },
        None => None,
    }
}

} // verus!
