//! A participant in the MPC protocol, with private storage of its shares.
use crate::mpc_shamir::shamir::Share;
use vstd::prelude::*;

verus! {

/// The labels and values of a party's storage as a map; a later entry for a
/// label overrides an earlier one.
pub open spec fn label_map<V>(entries: Seq<(String, V)>) -> Map<Seq<char>, V>
    decreases entries.len(),
{
    if entries.len() == 0 {
        Map::empty()
    } else {
        label_map(entries.drop_last()).insert(entries.last().0@, entries.last().1)
    }
}

/// What a party is: its id, its name and its shares by label.
pub struct PartyView {
    pub id: usize,
    pub name: Seq<char>,
    pub shares: Map<Seq<char>, i128>,
}

/// One participant in the MPC computation.
pub struct Party {
    /// 1-indexed identifier.  Also used as the x-coordinate of every
    /// share this party holds  (share.x == party.id).
    pub id: usize,
    /// Human-readable name for display output.
    pub name: String,
    /// Private storage: label → share value (y-coordinate only).
    shares: Vec<(String, i128)>,
}

impl View for Party {
    type V = PartyView;

    closed spec fn view(&self) -> PartyView {
        PartyView { id: self.id, name: self.name@, shares: label_map(self.shares@) }
    }
}

/// Entries after position `i` that do not carry `label` do not affect its lookup.
proof fn lemma_label_map_prefix(entries: Seq<(String, i128)>, i: int, label: Seq<char>)
    requires
        0 <= i <= entries.len(),
        forall|k: int| i <= k < entries.len() ==> (#[trigger] entries[k]).0@ != label,
    ensures
        label_map(entries).contains_key(label) == label_map(entries.take(i)).contains_key(label),
        label_map(entries)[label] == label_map(entries.take(i))[label],
    decreases entries.len() - i,
{
    if i < entries.len() {
        let d = entries.drop_last();
        assert(d.take(i) =~= entries.take(i));
        lemma_label_map_prefix(d, i, label);
    } else {
        assert(entries.take(i) =~= entries);
    }
}

impl Party {
    /// Create a new party.
    pub fn new(id: usize, name: &str) -> (p: Self)
        ensures
            p@.id == id,
            p@.name == name@,
            p@.shares == Map::<Seq<char>, i128>::empty(),
    {
        Party { id, name: name.to_owned(), shares: Vec::new() }
    }

    /// Store a share for a named value (called by the protocol layer
    /// when distributing shares).
    pub fn receive_share(&mut self, label: &str, y: i128)
        ensures
            final(self)@.id == old(self)@.id,
            final(self)@.name == old(self)@.name,
            final(self)@.shares == old(self)@.shares.insert(label@, y),
    {
        let ghost before = self.shares@;
        self.shares.push((label.to_owned(), y));
        assert(self.shares@.drop_last() =~= before);
    }

    /// Read the y-value of a named share from private storage.
    pub fn get_value(&self, label: &str) -> (r: i128)
        requires
            self@.shares.contains_key(label@),
        ensures
            r == self@.shares[label@],
    {
        let key = label.to_owned();
        let ghost entries = self.shares@;
        let mut i = self.shares.len();
        while i > 0
            invariant
                entries == self.shares@,
                key@ == label@,
                i <= entries.len(),
                forall|k: int| i <= k < entries.len() ==> (#[trigger] entries[k]).0@ != label@,
            decreases i,
        {
            if self.shares[i - 1].0 == key {
                proof {
                    lemma_label_map_prefix(entries, i as int, label@);
                    assert(entries.take(i as int).drop_last() =~= entries.take(i - 1));
                }
                return self.shares[i - 1].1;
            }
            i = i - 1;
        }
        proof {
            lemma_label_map_prefix(entries, 0, label@);
            assert(entries.take(0) =~= Seq::<(String, i128)>::empty());
        }
        0
    }

    /// Whether the party holds a share under `label`.
    pub fn has_share(&self, label: &str) -> (r: bool)
        ensures
            r == self@.shares.contains_key(label@),
    {
        let key = label.to_owned();
        let ghost entries = self.shares@;
        let mut i = self.shares.len();
        while i > 0
            invariant
                entries == self.shares@,
                key@ == label@,
                i <= entries.len(),
                forall|k: int| i <= k < entries.len() ==> (#[trigger] entries[k]).0@ != label@,
            decreases i,
        {
            if self.shares[i - 1].0 == key {
                proof {
                    lemma_label_map_prefix(entries, i as int, label@);
                    assert(entries.take(i as int).drop_last() =~= entries.take(i - 1));
                }
                return true;
            }
            i = i - 1;
        }
        proof {
            lemma_label_map_prefix(entries, 0, label@);
            assert(entries.take(0) =~= Seq::<(String, i128)>::empty());
        }
        false
    }

    /// Return the full Share struct  (x = party id, y = stored value).
    pub fn get_share(&self, label: &str) -> (s: Share)
        requires
            self@.shares.contains_key(label@),
        ensures
            s.x == self@.id as i128,
            s.y == self@.shares[label@],
    {
        Share { x: self.id as i128, y: self.get_value(label) }
    }
}

} // verus!
