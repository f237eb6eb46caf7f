//! The bookkeeping of the tick driver that needs no arithmetic on positions:
//! what a command asks for, where an agent stands in the roster, and the
//! renaming of agent ids.

use vstd::prelude::*;
use std::collections::HashMap;

verus! {

/// What a command asks the driver to do.
#[derive(Clone, Copy, Debug, PartialEq, Eq, Structural)]
pub enum Dispatch {
    /// Aim the flow field at the target of the command.
    Retarget,
    /// Put the agent that the command names on the target.
    Relocate,
    /// Nothing.
    Ignore,
}

/// A `MOVE` in mode `FLOW` aims the flow field, any other `MOVE` relocates
/// an agent, and every other action is ignored.
pub open spec fn dispatch_of(action: Seq<char>, mode: Option<Seq<char>>) -> Dispatch {
    if action == "MOVE"@ {
        if mode == Some("FLOW"@) {
            Dispatch::Retarget
        } else {
            Dispatch::Relocate
        }
    } else {
        Dispatch::Ignore
    }
}

pub open spec fn mode_view(mode: Option<String>) -> Option<Seq<char>> {
    match mode {
        Some(m) => Some(m@),
        None => None,
    }
}

/// Says what the command with this action and this mode asks for.
pub fn dispatch(action: &String, mode: &Option<String>) -> (d: Dispatch)
    ensures
        d == dispatch_of(action@, mode_view(*mode)),
{
    let move_word = "MOVE".to_owned();
    if *action == move_word {
        let flow_word = "FLOW".to_owned();
        match mode {
            Some(m) => {
                if *m == flow_word {
                    Dispatch::Retarget
                } else {
                    Dispatch::Relocate
                }
            },
            None => Dispatch::Relocate,
        }
    } else {
        Dispatch::Ignore
    }
}

/// The place of the first agent of the roster that has the id.
pub fn find_agent(ids: &Vec<u32>, id: u32) -> (r: Option<usize>)
    ensures
        r matches Some(i) ==> i < ids@.len() && ids@[i as int] == id && forall|j: int|
            0 <= j < i ==> ids@[j] != id,
        r is None ==> forall|j: int| 0 <= j < ids@.len() ==> ids@[j] != id,
{
    let mut i: usize = 0;
    while i < ids.len()
        invariant
            i <= ids@.len(),
            forall|j: int| 0 <= j < i ==> ids@[j] != id,
        decreases ids@.len() - i,
    {
        if ids[i] == id {
            return Some(i);
        }
        i += 1;
    }
    None
}

/// A renaming of ids: `old_ids[i]` becomes `new_ids[i]`. Where an old id
/// stands twice, its last place counts.
pub struct Renaming {
    pub old_ids: Seq<u32>,
    pub new_ids: Seq<u32>,
}

impl Renaming {
    pub open spec fn valid(self) -> bool {
        self.old_ids.len() == self.new_ids.len()
    }

    /// The renaming as a table from old id to new id.
    pub open spec fn table(self) -> Map<u32, u32>
        decreases self.old_ids.len(),
    {
        if self.old_ids.len() == 0 || !self.valid() {
            Map::empty()
        } else {
            (Renaming { old_ids: self.old_ids.drop_last(), new_ids: self.new_ids.drop_last() }).table().insert(
                self.old_ids.last(),
                self.new_ids.last(),
            )
        }
    }

    /// The new name of one id; an id that the renaming does not know keeps
    /// its name.
    pub open spec fn name(self, id: u32) -> u32 {
        if self.table().contains_key(id) {
            self.table()[id]
        } else {
            id
        }
    }

    /// The roster after the renaming; a renaming whose two lists differ in
    /// length renames nothing.
    pub open spec fn apply(self, ids: Seq<u32>) -> Seq<u32> {
        Seq::new(ids.len(), |i: int| self.name(ids[i]))
    }

    /// The renaming that does what `self` and then `next` do.
    pub open spec fn followed_by(self, next: Renaming) -> Renaming {
        let keys = next.old_ids + self.old_ids;
        Renaming { old_ids: keys, new_ids: Seq::new(keys.len(), |i: int| next.name(self.name(keys[i]))) }
    }

    /// The table of a renaming knows exactly the old ids.
    pub proof fn lemma_table_keys(self, id: u32)
        requires
            self.valid(),
        ensures
            self.table().contains_key(id) <==> self.old_ids.contains(id),
        decreases self.old_ids.len(),
    {
        if self.old_ids.len() > 0 {
            let rest = Renaming { old_ids: self.old_ids.drop_last(), new_ids: self.new_ids.drop_last() };
            rest.lemma_table_keys(id);
            if self.old_ids.contains(id) {
                let i = choose|i: int| 0 <= i < self.old_ids.len() && self.old_ids[i] == id;
                if i < self.old_ids.len() - 1 {
                    assert(rest.old_ids[i] == id);
                }
            }
            if rest.old_ids.contains(id) {
                let i = choose|i: int| 0 <= i < rest.old_ids.len() && rest.old_ids[i] == id;
                assert(self.old_ids[i] == id);
            }
            if self.old_ids.last() == id {
                assert(self.old_ids[self.old_ids.len() - 1] == id);
            }
        }
    }

    /// Where every new id is a function of its old id, the renaming is that
    /// function on the ids it knows.
    pub proof fn lemma_table_of_function(self, f: spec_fn(u32) -> u32, id: u32)
        requires
            self.valid(),
            forall|i: int| 0 <= i < self.old_ids.len() ==> #[trigger] self.new_ids[i] == f(self.old_ids[i]),
            self.table().contains_key(id),
        ensures
            self.table()[id] == f(id),
        decreases self.old_ids.len(),
    {
        if self.old_ids.len() > 0 {
            let rest = Renaming { old_ids: self.old_ids.drop_last(), new_ids: self.new_ids.drop_last() };
            if self.old_ids.last() == id {
                assert(self.new_ids[self.old_ids.len() - 1] == f(self.old_ids[self.old_ids.len() - 1]));
            } else {
                assert forall|i: int| 0 <= i < rest.old_ids.len() implies #[trigger] rest.new_ids[i] == f(
                    rest.old_ids[i],
                ) by {
                    assert(self.new_ids[i] == f(self.old_ids[i]));
                }
                rest.lemma_table_of_function(f, id);
            }
        }
    }
}

/// Renames the ids of the roster: every id that stands in `old_ids` becomes
/// the id at the same place in `new_ids`. Lists of different lengths rename
/// nothing.
pub fn remap_ids(ids: &mut Vec<u32>, old_ids: &Vec<u32>, new_ids: &Vec<u32>)
    ensures
        final(ids)@ == (Renaming { old_ids: old_ids@, new_ids: new_ids@ }).apply(old(ids)@),
        final(ids)@.len() == old(ids)@.len(),
{
    broadcast use vstd::std_specs::hash::group_hash_axioms;

    let ghost renaming = Renaming { old_ids: old_ids@, new_ids: new_ids@ };
    if old_ids.len() != new_ids.len() {
        proof {
            assert(renaming.table() =~= Map::<u32, u32>::empty());
            assert(ids@ =~= renaming.apply(ids@));
        }
        return ;
    }
    let mut map: HashMap<u32, u32> = HashMap::new();
    let mut i: usize = 0;
    proof {
        assert((Renaming { old_ids: old_ids@.take(0), new_ids: new_ids@.take(0) }).table() =~= Map::<
            u32,
            u32,
        >::empty());
    }
    while i < old_ids.len()
        invariant
            old_ids@.len() == new_ids@.len(),
            i <= old_ids@.len(),
            map@ == (Renaming {
                old_ids: old_ids@.take(i as int),
                new_ids: new_ids@.take(i as int),
            }).table(),
        decreases old_ids@.len() - i,
    {
        map.insert(old_ids[i], new_ids[i]);
        proof {
            assert(old_ids@.take(i + 1).drop_last() =~= old_ids@.take(i as int));
            assert(new_ids@.take(i + 1).drop_last() =~= new_ids@.take(i as int));
        }
        i += 1;
    }
    proof {
        assert(old_ids@.take(old_ids@.len() as int) =~= old_ids@);
        assert(new_ids@.take(new_ids@.len() as int) =~= new_ids@);
    }
    let mut k: usize = 0;
    while k < ids.len()
        invariant
            map@ == renaming.table(),
            ids@.len() == old(ids)@.len(),
            k <= ids@.len(),
            forall|j: int| 0 <= j < k ==> #[trigger] ids@[j] == renaming.name(old(ids)@[j]),
            forall|j: int| k <= j < ids@.len() ==> #[trigger] ids@[j] == old(ids)@[j],
        decreases ids@.len() - k,
    {
        let id = ids[k];
        match map.get(&id) {
            Some(new_id) => {
                let value = *new_id;
                ids.set(k, value);
            },
            None => {},
        }
        k += 1;
    }
    proof {
        assert(ids@ =~= renaming.apply(old(ids)@));
    }
}

/// Under a renaming that gives every id its own name the roster stays as it
/// is, however often it is renamed.
pub proof fn lemma_identity_renaming(ids: Seq<u32>, keys: Seq<u32>)
    ensures
        (Renaming { old_ids: keys, new_ids: keys }).apply(ids) == ids,
        (Renaming { old_ids: keys, new_ids: keys }).apply(
            (Renaming { old_ids: keys, new_ids: keys }).apply(ids),
        ) == (Renaming { old_ids: keys, new_ids: keys }).apply(ids),
{
    let r = Renaming { old_ids: keys, new_ids: keys };
    assert forall|i: int| 0 <= i < ids.len() implies r.name(ids[i]) == ids[i] by {
        if r.table().contains_key(ids[i]) {
            r.lemma_table_of_function(|k: u32| k, ids[i]);
        }
    }
    assert(r.apply(ids) =~= ids);
}

/// Two renamings one after the other are one renaming.
pub proof fn lemma_renamings_compose(ids: Seq<u32>, first: Renaming, second: Renaming)
    requires
        first.valid(),
        second.valid(),
    ensures
        first.followed_by(second).valid(),
        second.apply(first.apply(ids)) == first.followed_by(second).apply(ids),
{
    let both = first.followed_by(second);
    let f = |k: u32| second.name(first.name(k));
    assert forall|i: int| 0 <= i < ids.len() implies second.name(first.name(ids[i])) == both.name(
        ids[i],
    ) by {
        let id = ids[i];
        both.lemma_table_keys(id);
        first.lemma_table_keys(id);
        second.lemma_table_keys(id);
        if both.table().contains_key(id) {
            both.lemma_table_of_function(f, id);
        } else {
            assert(!first.old_ids.contains(id)) by {
                if first.old_ids.contains(id) {
                    let j = choose|j: int| 0 <= j < first.old_ids.len() && first.old_ids[j] == id;
                    assert(both.old_ids[second.old_ids.len() + j] == id);
                }
            }
            assert(!second.old_ids.contains(id)) by {
                if second.old_ids.contains(id) {
                    let j = choose|j: int| 0 <= j < second.old_ids.len() && second.old_ids[j] == id;
                    assert(both.old_ids[j] == id);
                }
            }
        }
    }
    assert(second.apply(first.apply(ids)) =~= both.apply(ids));
}

/// Renamings compose associatively: of three renamings in a row it does not
/// matter which two are put together first.
pub proof fn lemma_renamings_associate(ids: Seq<u32>, a: Renaming, b: Renaming, c: Renaming)
    requires
        a.valid(),
        b.valid(),
        c.valid(),
    ensures
        a.followed_by(b).followed_by(c).apply(ids) == a.followed_by(b.followed_by(c)).apply(ids),
{
    lemma_renamings_compose(ids, a, b);
    lemma_renamings_compose(ids, a.followed_by(b), c);
    lemma_renamings_compose(a.apply(ids), b, c);
    lemma_renamings_compose(ids, a, b.followed_by(c));
}


/// The number of values of one agent in the export buffer: its id, the two
/// coordinates of its position and the two of its velocity.
pub const RECORD_LEN: usize = 5;

/// The buffer holds the records one after the other, value by value.
pub open spec fn is_export_of<T>(buffer: Seq<T>, records: Seq<[T; 5]>) -> bool {
    &&& buffer.len() == 5 * records.len()
    &&& forall|i: int, k: int|
        0 <= i < records.len() && 0 <= k < 5 ==> buffer[5 * i + k] == #[trigger] records[i]@[k]
}

/// Fills the export buffer anew with the records of the agents, in their
/// order: five values for each agent.
pub fn rebuild_export_buffer<T: Copy>(buffer: &mut Vec<T>, records: &Vec<[T; 5]>)
    requires
        5 * records@.len() <= usize::MAX,
    ensures
        is_export_of(final(buffer)@, records@),
        final(buffer)@.len() == 5 * records@.len(),
{
    buffer.clear();
    buffer.reserve(records.len() * RECORD_LEN);
    let mut i: usize = 0;
    while i < records.len()
        invariant
            i <= records@.len(),
            buffer@.len() == 5 * i,
            forall|a: int, k: int|
                0 <= a < i && 0 <= k < 5 ==> buffer@[5 * a + k] == #[trigger] records@[a]@[k],
        decreases records@.len() - i,
    {
        let record = &records[i];
        let ghost before = buffer@;
        buffer.push(record[0]);
        buffer.push(record[1]);
        buffer.push(record[2]);
        buffer.push(record[3]);
        buffer.push(record[4]);
        proof {
            assert forall|a: int, k: int| 0 <= a < i + 1 && 0 <= k < 5 implies buffer@[5 * a + k]
                == #[trigger] records@[a]@[k] by {
                if a < i {
                    assert(buffer@[5 * a + k] == before[5 * a + k]);
                }
            }
        }
        i += 1;
    }
}

} // verus!
