use vstd::prelude::*;
use crate::codec::CommandView;
use crate::codec::encoded;
use crate::codec::record_key;

verus! {

/// The abstract state that replaying a log builds up: the key-to-value
/// map, the byte length of each key's live record, and the count of bytes
/// no record of the index refers to any more.  The count saturates
/// instead of wrapping; it is bookkeeping that only schedules compaction.
pub struct ReplayState {
    pub kv: Map<Seq<char>, Seq<char>>,
    pub lens: Map<Seq<char>, u64>,
    pub dead: u64,
}

impl ReplayState {
    /// The state before any record: empty maps, nothing dead.
    pub open spec fn empty() -> ReplayState {
        ReplayState { kv: Map::empty(), lens: Map::empty(), dead: 0 }
    }
}

/// The dead-byte count after a key's previous record, if any, died.
pub open spec fn charge_stale(st: ReplayState, k: Seq<char>) -> u64 {
    if st.lens.contains_key(k) {
        st.dead.saturating_add(st.lens[k])
    } else {
        st.dead
    }
}

/// One record applied to the replay state.  A `Set` binds the key to the
/// value and retires the key's previous record; a `Remove` unbinds the
/// key, retiring both the previous record and the `Remove` record itself.
pub open spec fn apply_record(st: ReplayState, c: CommandView) -> ReplayState {
    match c {
        CommandView::Put { key, value } => ReplayState {
            kv: st.kv.insert(key, value),
            lens: st.lens.insert(key, encoded(c).len() as u64),
            dead: charge_stale(st, key),
        },
        CommandView::Remove { key } => ReplayState {
            kv: st.kv.remove(key),
            lens: st.lens.remove(key),
            dead: charge_stale(st, key).saturating_add(encoded(c).len() as u64),
        },
    }
}

/// A record list applied in order, first record first.
pub open spec fn apply_records(st: ReplayState, rs: Seq<CommandView>) -> ReplayState
    decreases rs.len(),
{
    if rs.len() == 0 {
        st
    } else {
        apply_records(apply_record(st, rs[0]), rs.drop_first())
    }
}

/// Applying a list and then one more record is applying the extended
/// list.
pub proof fn lemma_apply_records_snoc(st: ReplayState, rs: Seq<CommandView>, c: CommandView)
    ensures
        apply_records(st, rs + seq![c]) == apply_record(apply_records(st, rs), c),
    decreases rs.len(),
{
    let e = rs + seq![c];
    assert(e.len() == rs.len() + 1);
    if rs.len() == 0 {
        assert(e[0] == c);
        assert(e.drop_first() =~= Seq::<CommandView>::empty());
        assert(apply_records(st, e) == apply_records(apply_record(st, c), e.drop_first()));
        assert(apply_records(apply_record(st, c), e.drop_first()) == apply_record(st, c));
        assert(apply_records(st, rs) == st);
    } else {
        assert(e[0] == rs[0]);
        assert(e.drop_first() =~= rs.drop_first() + seq![c]);
        lemma_apply_records_snoc(apply_record(st, rs[0]), rs.drop_first(), c);
        assert(apply_records(st, e) == apply_records(apply_record(st, e[0]), e.drop_first()));
        assert(apply_records(st, rs) == apply_records(apply_record(st, rs[0]), rs.drop_first()));
    }
}

/// Law: values set in order shadow one another, so after `set(k, v1)`,
/// ..., `set(k, vn)` with no intervening `remove(k)` the key reads as
/// `vn`, whatever state the log started from.
pub proof fn lemma_sets_in_order(st: ReplayState, k: Seq<char>, vs: Seq<Seq<char>>)
    requires
        vs.len() > 0,
    ensures
        ({
            let end = apply_records(
                st,
                vs.map_values(|v: Seq<char>| CommandView::Put { key: k, value: v }),
            );
            end.kv.contains_key(k) && end.kv[k] == vs.last()
        }),
    decreases vs.len(),
{
    let rs = vs.map_values(|v: Seq<char>| CommandView::Put { key: k, value: v });
    assert(rs.len() == vs.len());
    assert(rs[0] == (CommandView::Put { key: k, value: vs[0] }));
    if vs.len() == 1 {
        assert(rs.drop_first() =~= Seq::<CommandView>::empty());
        assert(apply_records(st, rs) == apply_records(apply_record(st, rs[0]), rs.drop_first()));
        assert(apply_records(st, rs) == apply_record(st, rs[0]));
        assert(vs.last() == vs[0]);
    } else {
        lemma_sets_in_order(apply_record(st, rs[0]), k, vs.drop_first());
        assert(vs.drop_first().map_values(|v: Seq<char>| CommandView::Put { key: k, value: v })
            =~= rs.drop_first());
        assert(apply_records(st, rs) == apply_records(apply_record(st, rs[0]), rs.drop_first()));
        assert(vs.drop_first().last() == vs.last());
    }
}

/// The record binds the key `k` to some value.
pub open spec fn sets_key(c: CommandView, k: Seq<char>) -> bool {
    c matches CommandView::Put { key, .. } && key == k
}

/// Law: after `remove(k)`, the key reads as empty until the next
/// `set(k, _)`: any following records that do not set `k` leave it
/// unbound.
pub proof fn lemma_remove_then_absent(st: ReplayState, k: Seq<char>, rs: Seq<CommandView>)
    requires
        forall|i: int| 0 <= i < rs.len() ==> !sets_key(#[trigger] rs[i], k),
    ensures
        !apply_records(apply_record(st, CommandView::Remove { key: k }), rs).kv.contains_key(k),
{
    lemma_no_set_stays_absent(apply_record(st, CommandView::Remove { key: k }), k, rs);
}

/// A key that is unbound stays unbound under records that do not set it.
pub proof fn lemma_no_set_stays_absent(st: ReplayState, k: Seq<char>, rs: Seq<CommandView>)
    requires
        !st.kv.contains_key(k),
        forall|i: int| 0 <= i < rs.len() ==> !sets_key(#[trigger] rs[i], k),
    ensures
        !apply_records(st, rs).kv.contains_key(k),
    decreases rs.len(),
{
    if rs.len() > 0 {
        assert(!sets_key(rs[0], k));
        lemma_no_set_stays_absent(apply_record(st, rs[0]), k, rs.drop_first());
    }
}

/// Law: setting the same key to the same value twice binds the key as one
/// set does; only the dead-byte count grows, by the record's length.
pub proof fn lemma_set_twice_idempotent(st: ReplayState, k: Seq<char>, v: Seq<char>)
    ensures
        ({
            let c = CommandView::Put { key: k, value: v };
            let once = apply_record(st, c);
            let twice = apply_record(once, c);
            twice.kv == once.kv && twice.lens == once.lens && twice.dead
                == once.dead.saturating_add(encoded(c).len() as u64)
        }),
{
    let c = CommandView::Put { key: k, value: v };
    let once = apply_record(st, c);
    let twice = apply_record(once, c);
    assert(twice.kv =~= once.kv);
    assert(twice.lens =~= once.lens);
}

/// A record leaves every key it does not name untouched.
pub proof fn lemma_apply_frame(st: ReplayState, c: CommandView, k: Seq<char>)
    requires
        record_key(c) != k,
    ensures
        apply_record(st, c).kv.contains_key(k) == st.kv.contains_key(k),
        st.kv.contains_key(k) ==> apply_record(st, c).kv[k] == st.kv[k],
{
}

} // verus!
