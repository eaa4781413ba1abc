//! Epistemic status of a page and the table that maps page ids to it.
use vstd::prelude::*;
use crate::text::{chars_of, push_str};

verus! {

/// The domain the memex is published under.
pub const DOMAIN: &'static str = "metasyn.pw";
/// Name of the least certain status.
pub const SEEDLING: &'static str = "seedling";
/// Name of the intermediate status.
pub const SAPLING: &'static str = "sapling";
/// Name of the most certain status.
pub const DENDROID: &'static str = "dendroid";

/// How settled the ideas of a page are.
#[derive(Debug, Clone, Copy, PartialEq, Eq, Structural)]
pub enum EpiStatus {
    Seedling,
    Sapling,
    Dendroid,
}

/// The name under which a status is written.
pub open spec fn status_name(s: EpiStatus) -> Seq<char> {
    match s {
        EpiStatus::Seedling => SEEDLING@,
        EpiStatus::Sapling => SAPLING@,
        EpiStatus::Dendroid => DENDROID@,
    }
}

/// The status a name stands for, if any.
pub open spec fn status_of_name(s: Seq<char>) -> Option<EpiStatus> {
    if s == SEEDLING@ {
        Some(EpiStatus::Seedling)
    } else if s == SAPLING@ {
        Some(EpiStatus::Sapling)
    } else if s == DENDROID@ {
        Some(EpiStatus::Dendroid)
    } else {
        None
    }
}

/// Whether two character vectors hold the same characters.
pub fn chars_eq(a: &Vec<char>, b: &Vec<char>) -> (res: bool)
    ensures
        res == (a@ == b@),
{
    if a.len() != b.len() {
        return false;
    }
    let mut i: usize = 0;
    while i < a.len()
        invariant
            a@.len() == b@.len(),
            i <= a@.len(),
            forall|k: int| 0 <= k < i ==> a@[k] == b@[k],
        decreases a@.len() - i,
    {
        if a[i] != b[i] {
            return false;
        }
        i += 1;
    }
    assert(a@ =~= b@);
    true
}

/// Whether two string slices hold the same characters.
pub fn str_eq(a: &str, b: &str) -> (res: bool)
    ensures
        res == (a@ == b@),
{
    let x = chars_of(a);
    let y = chars_of(b);
    chars_eq(&x, &y)
}

impl EpiStatus {
    /// Reads a status from its name; any other text is refused.
    pub fn from_str(s: &str) -> (res: Result<EpiStatus, ()>)
        ensures
            res == (match status_of_name(s@) {
                Some(st) => Ok(st),
                None => Err::<EpiStatus, ()>(()),
            }),
    {
        if str_eq(s, SEEDLING) {
            Ok(EpiStatus::Seedling)
        } else if str_eq(s, SAPLING) {
            Ok(EpiStatus::Sapling)
        } else if str_eq(s, DENDROID) {
            Ok(EpiStatus::Dendroid)
        } else {
            Err(())
        }
    }

    /// The name of the status, as it is written in pages and file names.
    pub fn to_string(&self) -> (res: String)
        ensures
            res@ == status_name(*self),
    {
        let mut s = String::new();
        match self {
            EpiStatus::Seedling => push_str(&mut s, SEEDLING),
            EpiStatus::Sapling => push_str(&mut s, SAPLING),
            EpiStatus::Dendroid => push_str(&mut s, DENDROID),
        }
        s
    }
}

/// Reading back the name of a status gives the status.
pub proof fn lemma_status_name_roundtrip(s: EpiStatus)
    ensures
        status_of_name(status_name(s)) == Some(s),
{
    reveal_strlit("seedling");
    reveal_strlit("sapling");
    reveal_strlit("dendroid");
    assert(SEEDLING@ != SAPLING@ && SEEDLING@ != DENDROID@ && SAPLING@ != DENDROID@) by {
        assert(SEEDLING@[1] != SAPLING@[1]);
        assert(SEEDLING@[0] != DENDROID@[0]);
        assert(SAPLING@.len() != DENDROID@.len());
    }
}

/// The table of statuses by page id that a list of insertions gives, a later
/// insertion of a key replacing an earlier one.
pub open spec fn lookup_map(pairs: Seq<(Seq<char>, EpiStatus)>) -> Map<Seq<char>, EpiStatus>
    decreases pairs.len(),
{
    if pairs.len() == 0 {
        Map::empty()
    } else {
        lookup_map(pairs.drop_last()).insert(pairs.last().0, pairs.last().1)
    }
}

/// A copy of some characters.
pub fn copy_chars(v: &Vec<char>) -> (res: Vec<char>)
    ensures
        res@ == v@,
{
    let mut out: Vec<char> = Vec::new();
    let mut i: usize = 0;
    while i < v.len()
        invariant
            i <= v@.len(),
            out@ == v@.take(i as int),
        decreases v@.len() - i,
    {
        out.push(v[i]);
        assert(out@ =~= v@.take(i + 1));
        i += 1;
    }
    assert(v@.take(v@.len() as int) =~= v@);
    out
}

/// Statuses of pages by page id.
pub struct EpiStatusLookup {
    pairs: Vec<(Vec<char>, EpiStatus)>,
}

/// The key and status of an insertion, as plain values.
pub open spec fn pair_view(p: (Vec<char>, EpiStatus)) -> (Seq<char>, EpiStatus) {
    (p.0@, p.1)
}

/// The insertions of a table, as plain values.
pub open spec fn pairs_view(pairs: Seq<(Vec<char>, EpiStatus)>) -> Seq<(Seq<char>, EpiStatus)> {
    Seq::new(pairs.len(), |i: int| pair_view(pairs[i]))
}

impl View for EpiStatusLookup {
    type V = Map<Seq<char>, EpiStatus>;

    closed spec fn view(&self) -> Map<Seq<char>, EpiStatus> {
        lookup_map(pairs_view(self.pairs@))
    }
}

proof fn lemma_lookup_last(pairs: Seq<(Seq<char>, EpiStatus)>, k: Seq<char>, i: int)
    requires
        0 <= i < pairs.len(),
        pairs[i].0 == k,
        forall|j: int| i < j < pairs.len() ==> pairs[j].0 != k,
    ensures
        lookup_map(pairs).contains_key(k),
        lookup_map(pairs)[k] == pairs[i].1,
    decreases pairs.len(),
{
    if i < pairs.len() - 1 {
        lemma_lookup_last(pairs.drop_last(), k, i);
    }
}

proof fn lemma_lookup_absent(pairs: Seq<(Seq<char>, EpiStatus)>, k: Seq<char>)
    requires
        forall|j: int| 0 <= j < pairs.len() ==> pairs[j].0 != k,
    ensures
        !lookup_map(pairs).contains_key(k),
    decreases pairs.len(),
{
    if pairs.len() > 0 {
        lemma_lookup_absent(pairs.drop_last(), k);
    }
}

impl EpiStatusLookup {
    /// An empty table.
    pub fn new() -> (res: Self)
        ensures
            res@ == Map::<Seq<char>, EpiStatus>::empty(),
    {
        let res = EpiStatusLookup { pairs: Vec::new() };
        assert(pairs_view(res.pairs@) =~= Seq::empty());
        res
    }

    /// A table with the same statuses.
    pub fn copied(&self) -> (res: Self)
        ensures
            res@ == self@,
    {
        let mut pairs: Vec<(Vec<char>, EpiStatus)> = Vec::new();
        let mut i: usize = 0;
        while i < self.pairs.len()
            invariant
                i <= self.pairs@.len(),
                pairs_view(pairs@) == pairs_view(self.pairs@).take(i as int),
            decreases self.pairs@.len() - i,
        {
            let key = copy_chars(&self.pairs[i].0);
            let ghost before = pairs@;
            assert(pairs_view(before).len() == before.len());
            pairs.push((key, self.pairs[i].1));
            assert(pairs_view(pairs@) =~= pairs_view(self.pairs@).take(i + 1)) by {
                assert forall|k: int| 0 <= k < i implies pairs_view(pairs@)[k] == pairs_view(before)[k] by {
                    assert(pairs@[k] == before[k]);
                }
            }
            i += 1;
        }
        assert(pairs_view(self.pairs@).take(self.pairs@.len() as int) =~= pairs_view(self.pairs@));
        EpiStatusLookup { pairs }
    }

    /// Records the status of a page id, replacing any status it had.
    pub fn insert(&mut self, key: &str, status: EpiStatus)
        ensures
            final(self)@ == old(self)@.insert(key@, status),
    {
        let k = chars_of(key);
        self.pairs.push((k, status));
        assert(pairs_view(self.pairs@).drop_last() =~= pairs_view(old(self).pairs@));
    }

    /// The status recorded for a page id.
    pub fn get(&self, key: &str) -> (res: Option<EpiStatus>)
        ensures
            res == (if self@.contains_key(key@) { Some(self@[key@]) } else { None::<EpiStatus> }),
    {
        let k = chars_of(key);
        let ghost pv = pairs_view(self.pairs@);
        let mut i: usize = self.pairs.len();
        while i > 0
            invariant
                i <= self.pairs@.len(),
                pv == pairs_view(self.pairs@),
                k@ == key@,
                forall|j: int| i <= j < pv.len() ==> pv[j].0 != k@,
            decreases i,
        {
            i -= 1;
            assert(pv[i as int] == pair_view(self.pairs@[i as int]));
            if chars_eq(&self.pairs[i].0, &k) {
                proof {
                    lemma_lookup_last(pv, k@, i as int);
                }
                return Some(self.pairs[i].1);
            }
        }
        proof {
            lemma_lookup_absent(pv, k@);
        }
        None
    }
}

/// What a table gives back after a status is recorded for a page: that
/// status for that page, and for every other page what it gave before.
pub proof fn lemma_lookup_insert_get(table: Map<Seq<char>, EpiStatus>, key: Seq<char>, status: EpiStatus, other: Seq<char>)
    ensures
        table.insert(key, status).contains_key(key),
        table.insert(key, status)[key] == status,
        other != key ==> table.insert(key, status).contains_key(other) == table.contains_key(other),
        other != key && table.contains_key(other) ==> table.insert(key, status)[other] == table[other],
{
}

} // verus!
