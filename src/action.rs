use vstd::prelude::*;
use crate::context::Context;
use crate::message::{pairs_map, lemma_pairs_map_concat, Message};
use std::rc::Rc;

verus! {

/// What is done with a context when it closes.
#[derive(Debug, PartialEq, Eq, Structural)]
pub enum ActionType {
    Message(MessageAction),
}

/// Emits one message that sums up the closed context.
#[derive(Debug, PartialEq, Eq, Structural)]
pub struct MessageAction;

/// The values of all the messages, a later one shadowing an earlier one.
pub open spec fn merged_values(msgs: Seq<Rc<Message>>) -> Map<Seq<char>, Seq<char>>
    decreases msgs.len(),
{
    if msgs.len() == 0 {
        Map::empty()
    } else {
        merged_values(msgs.drop_last()).union_prefer_right(msgs.last().spec_values())
    }
}

/// All the pairs of all the messages, in order.
pub open spec fn all_pairs(msgs: Seq<Rc<Message>>) -> Seq<(String, String)>
    decreases msgs.len(),
{
    if msgs.len() == 0 {
        Seq::empty()
    } else {
        all_pairs(msgs.drop_last()) + msgs.last().spec_pairs()
    }
}

proof fn lemma_all_pairs_merge(msgs: Seq<Rc<Message>>)
    ensures
        pairs_map(all_pairs(msgs)) == merged_values(msgs),
    decreases msgs.len(),
{
    if msgs.len() > 0 {
        lemma_all_pairs_merge(msgs.drop_last());
        lemma_pairs_map_concat(all_pairs(msgs.drop_last()), msgs.last().spec_pairs());
    }
}

impl MessageAction {
    pub fn new() -> (r: MessageAction)
        ensures
            r == MessageAction,
    {
        MessageAction
    }

    /// The message that sums up `context`: it carries `uuid`, the name of the
    /// first message, and the values of all the messages, a later value
    /// shadowing an earlier one under the same key. A context that holds no
    /// message gives none.
    pub fn execute(&self, context: &Context, uuid: String) -> (r: Option<Message>)
        requires
            uuid@.len() > 0,
        ensures
            r is Some <==> context@.messages.len() > 0,
            r is Some ==> r->Some_0.spec_uuid() == uuid@,
            r is Some ==> r->Some_0.spec_name() == context@.messages[0].spec_name(),
            r is Some ==> r->Some_0.spec_values() == merged_values(context@.messages),
    {
        let msgs = context.messages();
        if msgs.len() == 0 {
            return None;
        }
        let mut pairs: Vec<(String, String)> = Vec::new();
        let mut i: usize = 0;
        while i < msgs.len()
            invariant
                i <= msgs@.len(),
                pairs@ == all_pairs(msgs@.take(i as int)),
            decreases msgs@.len() - i,
        {
            let m = &msgs[i];
            let mp = m.pairs();
            let ghost start = pairs@;
            let mut j: usize = 0;
            while j < mp.len()
                invariant
                    j <= mp@.len(),
                    pairs@ == start + mp@.take(j as int),
                decreases mp@.len() - j,
            {
                let k = mp[j].0.clone();
                let v = mp[j].1.clone();
                pairs.push((k, v));
                proof {
                    assert(pairs@ =~= start + mp@.take(j + 1));
                }
                j = j + 1;
            }
            proof {
                assert(msgs@.take(i + 1).drop_last() =~= msgs@.take(i as int));
                assert(mp@.take(j as int) =~= mp@);
            }
            i = i + 1;
        }
        proof {
            assert(msgs@.take(i as int) =~= msgs@);
            lemma_all_pairs_merge(msgs@);
        }
        let name = match msgs[0].name() {
            Some(n) => Some(n.clone()),
            None => None,
        };
        Some(Message::from_parts(uuid, name, pairs))
    }
}

impl From<MessageAction> for ActionType {
    fn from(action: MessageAction) -> (r: ActionType) {
        ActionType::Message(action)
    }
}

impl vstd::std_specs::convert::FromSpecImpl<MessageAction> for ActionType {
    open spec fn obeys_from_spec() -> bool {
        true
    }

    open spec fn from_spec(action: MessageAction) -> ActionType {
        ActionType::Message(action)
    }
}

} // verus!
