//! Records of the concepts that lie on the path from the universe to a
//! concept, and the task key that such a path yields.
use vstd::prelude::*;
use crate::strings::{decimal, snake_case, to_snake_case, usize_to_string, string_of};

verus! {

/// Identifies a concept (or a constraint on it): the UUID of the concept and
/// the name of its type.
pub struct TaskId {
    pub uuid: u128,
    pub object_type: String,
}

impl View for TaskId {
    type V = (u128, Seq<char>);

    open spec fn view(&self) -> (u128, Seq<char>) {
        (self.uuid, self.object_type@)
    }
}

impl Clone for TaskId {
    fn clone(&self) -> (r: Self)
        ensures
            r@ == self@,
    {
        TaskId { uuid: self.uuid, object_type: self.object_type.clone() }
    }
}

impl TaskId {
    pub fn new(uuid: u128, object_type: String) -> (r: Self)
        ensures
            r.uuid == uuid,
            r.object_type == object_type,
    {
        TaskId { uuid, object_type }
    }

    /// Whether two ids name the same concept.
    pub fn same_as(&self, other: &TaskId) -> (r: bool)
        ensures
            r == (self@ == other@),
    {
        self.uuid == other.uuid && self.object_type == other.object_type
    }

    /// A copy of the id.
    pub fn duplicate(&self) -> (r: TaskId)
        ensures
            r@ == self@,
    {
        TaskId { uuid: self.uuid, object_type: self.object_type.clone() }
    }
}

/// One concept on the path from the universe to a concept: its UUID, type
/// name, optional tag and its index among its parent's children.
pub struct AncestorRecord {
    pub uuid: u128,
    pub object_type: String,
    pub tag: Option<String>,
    pub ix: usize,
}

/// The abstract value of an ancestor record.
pub struct AncestorRecordView {
    pub uuid: u128,
    pub object_type: Seq<char>,
    pub tag: Option<Seq<char>>,
    pub ix: nat,
}

pub open spec fn opt_string_view(o: Option<String>) -> Option<Seq<char>> {
    match o {
        Some(s) => Some(s@),
        None => None,
    }
}

impl View for AncestorRecord {
    type V = AncestorRecordView;

    open spec fn view(&self) -> AncestorRecordView {
        AncestorRecordView {
            uuid: self.uuid,
            object_type: self.object_type@,
            tag: opt_string_view(self.tag),
            ix: self.ix as nat,
        }
    }
}

/// The view of each record of a sequence.
pub open spec fn records_view(s: Seq<AncestorRecord>) -> Seq<AncestorRecordView> {
    s.map_values(|r: AncestorRecord| r@)
}

/// The part of a relative path that one untagged record contributes:
/// `__<snake-case type>_<index>` when its index is positive, nothing otherwise.
pub open spec fn record_piece(r: AncestorRecordView) -> Seq<char> {
    if r.ix > 0 {
        seq!['_', '_'] + snake_case(r.object_type) + seq!['_'] + decimal(r.ix)
    } else {
        Seq::empty()
    }
}

/// The relative path of a list of ancestors: the records are read from the
/// last (the concept itself) towards the first (the universe); each untagged
/// record adds its piece, and the first tagged record met adds `__<tag>` and
/// ends the path.
pub open spec fn relative_path(anc: Seq<AncestorRecordView>) -> Seq<char>
    decreases anc.len(),
{
    if anc.len() == 0 {
        Seq::empty()
    } else {
        match anc.last().tag {
            Some(t) => seq!['_', '_'] + t,
            None => record_piece(anc.last()) + relative_path(anc.drop_last()),
        }
    }
}

/// When the last record is tagged, the relative path is `__` followed by
/// its tag, whatever its index and whatever records come before it.
pub proof fn lemma_tagged_record_ends_path(anc: Seq<AncestorRecordView>)
    requires
        anc.len() > 0,
        anc.last().tag is Some,
    ensures
        relative_path(anc) == seq!['_', '_'] + anc.last().tag->0,
{
}

/// Only the records from the last tagged one on matter: two lists that end
/// in the same tagged record followed by the same untagged records have
/// the same relative path.
pub proof fn lemma_path_ignores_records_before_tag(
    p1: Seq<AncestorRecordView>,
    p2: Seq<AncestorRecordView>,
    t: AncestorRecordView,
    rest: Seq<AncestorRecordView>,
)
    requires
        t.tag is Some,
        forall|k: int| 0 <= k < rest.len() ==> (#[trigger] rest[k]).tag is None,
    ensures
        relative_path(p1.push(t) + rest) == relative_path(p2.push(t) + rest),
    decreases rest.len(),
{
    if rest.len() > 0 {
        let r0 = rest.drop_last();
        lemma_path_ignores_records_before_tag(p1, p2, t, r0);
        assert((p1.push(t) + rest).drop_last() =~= p1.push(t) + r0);
        assert((p2.push(t) + rest).drop_last() =~= p2.push(t) + r0);
        assert((p1.push(t) + rest).last() == rest.last());
        assert((p2.push(t) + rest).last() == rest.last());
    } else {
        assert(p1.push(t) + rest =~= p1.push(t));
        assert(p2.push(t) + rest =~= p2.push(t));
    }
}

/// An untagged last record with index zero adds nothing to the path of the
/// records before it; one with a positive index adds
/// `__<snake-case type>_<index>` in front of it.
pub proof fn lemma_untagged_record_piece(anc: Seq<AncestorRecordView>)
    requires
        anc.len() > 0,
        anc.last().tag is None,
    ensures
        anc.last().ix == 0 ==> relative_path(anc) == relative_path(anc.drop_last()),
        anc.last().ix > 0 ==> relative_path(anc) == seq!['_', '_'] + snake_case(anc.last().object_type) + seq!['_']
            + decimal(anc.last().ix) + relative_path(anc.drop_last()),
{
    if anc.last().ix == 0 {
        assert(record_piece(anc.last()) + relative_path(anc.drop_last()) =~= relative_path(anc.drop_last()));
    }
}

impl Clone for AncestorRecord {
    fn clone(&self) -> (r: Self)
        ensures
            r@ == self@,
    {
        AncestorRecord {
            uuid: self.uuid,
            object_type: self.object_type.clone(),
            tag: match &self.tag {
                Some(t) => Some(t.clone()),
                None => None,
            },
            ix: self.ix,
        }
    }
}

impl AncestorRecord {
    pub fn new(uuid: u128, object_type: String, tag: Option<String>, ix: usize) -> (r: Self)
        ensures
            r.uuid == uuid,
            r.object_type == object_type,
            r.tag == tag,
            r.ix == ix,
    {
        AncestorRecord { uuid, object_type, tag, ix }
    }

    /// The id of the recorded concept: its UUID and type name.
    pub fn get_key(&self) -> (r: TaskId)
        ensures
            r@ == (self.uuid, self.object_type@),
    {
        TaskId { uuid: self.uuid, object_type: self.object_type.clone() }
    }

    /// The path of a concept relative to its closest tagged ancestor, used as
    /// the key of the tasks that run on the concept.
    pub fn compute_relative_path(ancestors: &Vec<AncestorRecord>) -> (r: String)
        ensures
            r@ == relative_path(records_view(ancestors@)),
            ancestors@.len() > 0 && ancestors@.last().tag is Some
                ==> r@ == seq!['_', '_'] + ancestors@.last().tag->0@,
    {
        proof {
            if ancestors@.len() > 0 && ancestors@.last().tag is Some {
                let rv = records_view(ancestors@);
                assert(rv.last() == ancestors@.last()@);
                lemma_tagged_record_ends_path(rv);
            }
        }
        let mut relative_path_s = string_of("");
        let mut i: usize = ancestors.len();
        let ghost all = records_view(ancestors@);
        proof {
            reveal_strlit("");
            assert(all.subrange(0, i as int) =~= all);
            assert(relative_path_s@ =~= Seq::<char>::empty());
        }
        while i > 0
            invariant_except_break
                i <= ancestors@.len(),
                all == records_view(ancestors@),
                relative_path(all) == relative_path_s@ + relative_path(all.subrange(0, i as int)),
            ensures
                relative_path_s@ == relative_path(all),
            decreases i,
        {
            let ghost prefix = all.subrange(0, i as int);
            proof {
                assert(prefix.last() == ancestors@[i - 1]@);
                assert(prefix.drop_last() =~= all.subrange(0, i - 1));
            }
            let record = &ancestors[i - 1];
            if let Some(t) = &record.tag {
                relative_path_s.append("__");
                relative_path_s.append(t.as_str());
                proof {
                    reveal_strlit("__");
                    assert(relative_path(prefix) == seq!['_', '_'] + t@);
                    assert(relative_path(all) =~= relative_path_s@);
                }
                break;
            }
            if record.ix > 0 {
                let snake = to_snake_case(record.object_type.as_str());
                let ix_s = usize_to_string(record.ix);
                relative_path_s.append("__");
                relative_path_s.append(snake.as_str());
                relative_path_s.append("_");
                relative_path_s.append(ix_s.as_str());
                proof {
                    reveal_strlit("__");
                    reveal_strlit("_");
                }
            }
            i = i - 1;
            proof {
                assert(relative_path(prefix) == record_piece(prefix.last()) + relative_path(
                    prefix.drop_last(),
                ));
                assert(relative_path(all) =~= relative_path_s@ + relative_path(
                    all.subrange(0, i as int),
                ));
            }
        }
        proof {
            if i == 0 {
                assert(all.subrange(0, 0) =~= Seq::<AncestorRecordView>::empty());
            }
        }
        relative_path_s
    }
}

} // verus!
