use vstd::prelude::*;
use crate::conditions::{Conditions, ConditionsView};
use crate::message::Message;
use std::rc::Rc;

verus! {

/// A tick of the timer: the milliseconds elapsed since the previous tick.
pub struct TimerEvent(pub u32);

/// What a [`Context`] holds.
pub ghost struct ContextView {
    pub conditions: ConditionsView,
    pub opened: bool,
    pub elapsed_time: u32,
    pub elapsed_since_last_message: u32,
    pub messages: Seq<Rc<Message>>,
}

impl ContextView {
    /// A closed context is untouched; an open one has a message, and the
    /// idle time never exceeds the time since opening.
    pub open spec fn wf(self) -> bool {
        &&& self.elapsed_since_last_message <= self.elapsed_time
        &&& self.opened ==> self.messages.len() >= 1
        &&& !self.opened ==> self.elapsed_time == 0 && self.messages.len() == 0
    }
}

/// Whether a message with pattern uuid `uuid` opens a context with conditions `c`.
pub open spec fn is_opening(c: ConditionsView, uuid: Seq<char>) -> bool {
    if c.first_opens == Some(true) {
        c.patterns.len() > 0 && c.patterns[0] == uuid
    } else {
        c.patterns.contains(uuid)
    }
}

pub open spec fn max_size_reached(s: ContextView) -> bool {
    match s.conditions.max_size {
        Some(k) => s.messages.len() >= k,
        None => false,
    }
}

/// The last message carries the uuid of the last pattern, and that pattern closes.
pub open spec fn closing_message_seen(s: ContextView) -> bool {
    &&& s.conditions.last_closes == Some(true)
    &&& s.messages.len() > 0
    &&& s.conditions.patterns.len() > 0
    &&& s.messages.last().spec_uuid() == s.conditions.patterns.last()
}

pub open spec fn timeout_expired(s: ContextView) -> bool {
    s.elapsed_time >= s.conditions.timeout
}

pub open spec fn renew_timeout_expired(s: ContextView) -> bool {
    match s.conditions.renew_timeout {
        Some(r) => s.elapsed_since_last_message >= r,
        None => false,
    }
}

/// `a + b`, held at the largest `u32`.
pub open spec fn saturating(a: u32, b: u32) -> u32 {
    if a + b > u32::MAX {
        u32::MAX
    } else {
        (a + b) as u32
    }
}

/// The state after a message and whether the context closes on it.
pub open spec fn step_message(s: ContextView, m: Rc<Message>) -> (ContextView, bool) {
    if s.opened {
        let t = ContextView {
            elapsed_since_last_message: 0,
            messages: s.messages.push(m),
            ..s
        };
        (t, max_size_reached(t) || closing_message_seen(t))
    } else if is_opening(s.conditions, m.spec_uuid()) {
        let t = ContextView {
            opened: true,
            elapsed_time: 0,
            elapsed_since_last_message: 0,
            messages: s.messages.push(m),
            ..s
        };
        (t, max_size_reached(t) || closing_message_seen(t))
    } else {
        (s, false)
    }
}

/// The state after a tick of `d` milliseconds and whether the context closes on it.
pub open spec fn step_timer(s: ContextView, d: u32) -> (ContextView, bool) {
    if s.opened {
        let t = ContextView {
            elapsed_time: saturating(s.elapsed_time, d),
            elapsed_since_last_message: saturating(s.elapsed_since_last_message, d),
            ..s
        };
        (t, timeout_expired(t) || renew_timeout_expired(t))
    } else {
        (s, false)
    }
}

/// The state after a run of timer ticks, in order.
pub open spec fn run_timer(s: ContextView, ticks: Seq<u32>) -> ContextView
    decreases ticks.len(),
{
    if ticks.len() == 0 {
        s
    } else {
        step_timer(run_timer(s, ticks.drop_last()), ticks.last()).0
    }
}

/// The state after a run of messages, in order.
pub open spec fn run_messages(s: ContextView, msgs: Seq<Rc<Message>>) -> ContextView
    decreases msgs.len(),
{
    if msgs.len() == 0 {
        s
    } else {
        step_message(run_messages(s, msgs.drop_last()), msgs.last()).0
    }
}

/// The sum of a run of ticks.
pub open spec fn total(ticks: Seq<u32>) -> int
    decreases ticks.len(),
{
    if ticks.len() == 0 {
        0
    } else {
        total(ticks.drop_last()) + ticks.last()
    }
}

proof fn lemma_run_timer_clock(s: ContextView, ticks: Seq<u32>)
    requires
        s.opened,
        s.elapsed_time == 0,
    ensures
        run_timer(s, ticks).opened,
        run_timer(s, ticks).conditions == s.conditions,
        run_timer(s, ticks).elapsed_time == if total(ticks) > u32::MAX {
            u32::MAX as int
        } else {
            total(ticks)
        },
    decreases ticks.len(),
{
    if ticks.len() > 0 {
        lemma_run_timer_clock(s, ticks.drop_last());
    }
}

/// On a context that has just opened and has no renew timeout, the tick
/// numbered `k` closes it exactly when the ticks up to and including it add
/// up to the hard timeout: so no earlier tick closes it, and this one does.
pub proof fn lemma_timeout_closes_when_total_reaches_it(s: ContextView, ticks: Seq<u32>, k: int)
    requires
        s.wf(),
        s.opened,
        s.elapsed_time == 0,
        s.conditions.renew_timeout is None,
        0 <= k < ticks.len(),
    ensures
        step_timer(run_timer(s, ticks.take(k)), ticks[k]).1 == (total(ticks.take(k + 1))
            >= s.conditions.timeout),
{
    let upto = ticks.take(k + 1);
    assert(upto.drop_last() =~= ticks.take(k));
    lemma_run_timer_clock(s, upto);
    lemma_run_timer_clock(s, ticks.take(k));
}

proof fn lemma_run_messages_count(s: ContextView, msgs: Seq<Rc<Message>>)
    requires
        s.wf(),
        !s.opened,
        msgs.len() > 0,
        is_opening(s.conditions, msgs[0].spec_uuid()),
    ensures
        run_messages(s, msgs).opened,
        run_messages(s, msgs).conditions == s.conditions,
        run_messages(s, msgs).messages.len() == msgs.len(),
    decreases msgs.len(),
{
    if msgs.len() > 1 {
        assert(msgs.drop_last()[0] == msgs[0]);
        lemma_run_messages_count(s, msgs.drop_last());
    } else {
        assert(msgs.drop_last().len() == 0);
        assert(run_messages(s, msgs.drop_last()) == s);
        assert(msgs.last() == msgs[0]);
    }
}

/// A context with `max_size` k and no closing pattern, fed messages the
/// first of which opens it, closes on the k-th message and on none before it.
pub proof fn lemma_max_size_closes_on_kth_message(
    s: ContextView,
    msgs: Seq<Rc<Message>>,
    k: usize,
    i: int,
)
    requires
        s.wf(),
        !s.opened,
        s.conditions.max_size == Some(k),
        k >= 1,
        s.conditions.last_closes != Some(true),
        0 <= i < msgs.len(),
        i < k,
        is_opening(s.conditions, msgs[0].spec_uuid()),
    ensures
        step_message(run_messages(s, msgs.take(i)), msgs[i]).1 == (i + 1 == k),
{
    if i > 0 {
        assert(msgs.take(i)[0] == msgs[0]);
        lemma_run_messages_count(s, msgs.take(i));
    } else {
        assert(msgs.take(i).len() == 0);
        assert(run_messages(s, msgs.take(i)) == s);
    }
}

/// A correlation window: collects the messages of its patterns from the
/// opening one until a closing condition fires.
pub struct Context {
    conditions: Conditions,
    opened: bool,
    elapsed_time: u32,
    elapsed_time_since_last_message: u32,
    messages: Vec<Rc<Message>>,
}

impl View for Context {
    type V = ContextView;

    closed spec fn view(&self) -> ContextView {
        ContextView {
            conditions: self.conditions@,
            opened: self.opened,
            elapsed_time: self.elapsed_time,
            elapsed_since_last_message: self.elapsed_time_since_last_message,
            messages: self.messages@,
        }
    }
}

impl Context {
    pub fn new(conditions: Conditions) -> (r: Context)
        ensures
            r@ == (ContextView {
                conditions: conditions@,
                opened: false,
                elapsed_time: 0,
                elapsed_since_last_message: 0,
                messages: Seq::empty(),
            }),
            r@.wf(),
    {
        Context {
            conditions,
            opened: false,
            elapsed_time: 0,
            elapsed_time_since_last_message: 0,
            messages: Vec::new(),
        }
    }

    pub fn conditions(&self) -> (r: &Conditions)
        ensures
            r@ == self@.conditions,
    {
        &self.conditions
    }

    pub fn is_open(&self) -> (r: bool)
        ensures
            r == self@.opened,
    {
        self.opened
    }

    pub fn messages(&self) -> (r: &Vec<Rc<Message>>)
        ensures
            r@ == self@.messages,
    {
        &self.messages
    }

    /// Advances both clocks of an open context; reports whether a timer expired.
    pub fn on_timer(&mut self, event: &TimerEvent) -> (r: bool)
        requires
            old(self)@.wf(),
        ensures
            (final(self)@, r) == step_timer(old(self)@, event.0),
            final(self)@.wf(),
    {
        if self.opened {
            self.update_timers(event.0);
            self.is_any_timer_expired()
        } else {
            false
        }
    }

    fn process_message(&mut self, event: Rc<Message>) -> (r: bool)
        requires
            old(self)@.elapsed_since_last_message <= old(self)@.elapsed_time,
        ensures
            final(self)@ == (ContextView {
                elapsed_since_last_message: 0,
                messages: old(self)@.messages.push(event),
                ..old(self)@
            }),
            r == (max_size_reached(final(self)@) || closing_message_seen(final(self)@)),
    {
        self.elapsed_time_since_last_message = 0;
        self.messages.push(event);
        self.is_closing()
    }

    /// Feeds a message: an open context takes it, a closed one opens on it if
    /// its pattern opens the context. Reports whether the context closes.
    pub fn on_message(&mut self, event: Rc<Message>) -> (r: bool)
        requires
            old(self)@.wf(),
        ensures
            (final(self)@, r) == step_message(old(self)@, event),
            final(self)@.wf(),
    {
        if self.opened {
            self.process_message(event)
        } else {
            self.open_context_or_ignore_message(event)
        }
    }

    fn open_context_or_ignore_message(&mut self, event: Rc<Message>) -> (r: bool)
        requires
            old(self)@.wf(),
            !old(self)@.opened,
        ensures
            (final(self)@, r) == step_message(old(self)@, event),
    {
        if self.is_opening(&event) {
            self.opened = true;
            self.elapsed_time = 0;
            self.process_message(event)
        } else {
            false
        }
    }

    fn is_max_size_reached(&self) -> (r: bool)
        ensures
            r == max_size_reached(self@),
    {
        match self.conditions.max_size() {
            Some(max_size) => self.messages.len() >= max_size,
            None => false,
        }
    }

    fn is_closing_message(&self) -> (r: bool)
        ensures
            r == closing_message_seen(self@),
    {
        match self.conditions.last_closes() {
            Some(true) => {},
            _ => return false,
        }
        let patterns = self.conditions.patterns();
        if self.messages.len() == 0 || patterns.len() == 0 {
            return false;
        }
        let last = &self.messages[self.messages.len() - 1];
        *last.uuid() == patterns[patterns.len() - 1]
    }

    fn is_opening(&self, message: &Rc<Message>) -> (r: bool)
        ensures
            r == is_opening(self@.conditions, message.spec_uuid()),
    {
        let patterns = self.conditions.patterns();
        let uuid = message.uuid();
        let first_opens = match self.conditions.first_opens() {
            Some(b) => b,
            None => false,
        };
        if first_opens {
            patterns.len() > 0 && patterns[0] == *uuid
        } else {
            let mut i: usize = 0;
            while i < patterns.len()
                invariant
                    i <= patterns@.len(),
                    crate::conditions::strings_view(patterns@) == self@.conditions.patterns,
                    self@.conditions.first_opens != Some(true),
                    uuid@ == message.spec_uuid(),
                    forall|j: int| 0 <= j < i ==> patterns@[j]@ != uuid@,
                decreases patterns@.len() - i,
            {
                if patterns[i] == *uuid {
                    proof {
                        let v = crate::conditions::strings_view(patterns@);
                        assert(v[i as int] == uuid@);
                        assert(v.contains(uuid@));
                    }
                    return true;
                }
                i = i + 1;
            }
            proof {
                let v = crate::conditions::strings_view(patterns@);
                if v.contains(uuid@) {
                    let j = choose|j: int| 0 <= j < v.len() && v[j] == uuid@;
                    assert(patterns@[j]@ == uuid@);
                }
            }
            false
        }
    }

    fn is_closing(&self) -> (r: bool)
        ensures
            r == (max_size_reached(self@) || closing_message_seen(self@)),
    {
        self.is_max_size_reached() || self.is_closing_message()
    }

    fn is_timeout_expired(&self) -> (r: bool)
        ensures
            r == timeout_expired(self@),
    {
        self.elapsed_time >= self.conditions.timeout()
    }

    fn is_renew_timeout_expired(&self) -> (r: bool)
        ensures
            r == renew_timeout_expired(self@),
    {
        match self.conditions.renew_timeout() {
            Some(renew_timeout) => self.elapsed_time_since_last_message >= renew_timeout,
            None => false,
        }
    }

    fn is_any_timer_expired(&self) -> (r: bool)
        ensures
            r == (timeout_expired(self@) || renew_timeout_expired(self@)),
    {
        self.is_timeout_expired() || self.is_renew_timeout_expired()
    }

    fn update_timers(&mut self, elapsed_time: u32)
        ensures
            final(self)@ == (ContextView {
                elapsed_time: saturating(old(self)@.elapsed_time, elapsed_time),
                elapsed_since_last_message: saturating(
                    old(self)@.elapsed_since_last_message,
                    elapsed_time,
                ),
                ..old(self)@
            }),
    {
        self.elapsed_time = self.elapsed_time.saturating_add(elapsed_time);
        self.elapsed_time_since_last_message = self.elapsed_time_since_last_message.saturating_add(
            elapsed_time,
        );
    }
}

} // verus!
