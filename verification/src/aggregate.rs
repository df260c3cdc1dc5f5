use vstd::prelude::*;
use crate::graph::Graph;
use crate::groups::group_key;
use crate::groups::group_keys;
use crate::groups::group_names;
use crate::groups::group_total;
use crate::groups::in_group;
use crate::groups::letter_count;
use crate::groups::lemma_group_total_bounds;
use crate::groups::lemma_letter_count_bounds;
use crate::record::NameData;

verus! {

/// One group's aggregate: the gender and ethnicity that form the key,
/// the sum of the member records' counts, and the member names in
/// insertion order.
#[derive(Debug, PartialEq)]
pub struct GroupTotal {
    pub gender: String,
    pub ethnicity: String,
    pub total: u64,
    pub names: Vec<String>,
}

/// One group's starting-letter histogram: for each first character of
/// a member's name, how many members start with it, the characters in
/// ascending code-point order.
#[derive(Debug, PartialEq)]
pub struct LetterCounts {
    pub gender: String,
    pub ethnicity: String,
    pub counts: Vec<(char, u64)>,
}

/// The keys held by a key list, as character sequences.
pub open spec fn key_view(keys: Seq<(String, String)>) -> Seq<(Seq<char>, Seq<char>)> {
    keys.map_values(|p: (String, String)| (p.0@, p.1@))
}

pub open spec fn total_entry_ok(nodes: Seq<NameData>, q: int, t: GroupTotal) -> bool {
    let key = group_keys(nodes)[q];
    &&& t.gender@ == key.0
    &&& t.ethnicity@ == key.1
    &&& t.total == group_total(nodes, key)
    &&& t.names@.map_values(|n: String| n@) == group_names(nodes, key)
}

/// What the group-totals aggregation returns: one entry per distinct
/// group, in order of first occurrence, carrying the group's summed
/// count and its names in insertion order.
pub open spec fn totals_match(nodes: Seq<NameData>, r: Seq<GroupTotal>) -> bool {
    &&& r.len() == group_keys(nodes).len()
    &&& forall|q: int| 0 <= q < r.len() ==> total_entry_ok(nodes, q, #[trigger] r[q])
}

impl Graph {
    /// The distinct (gender, ethnicity) keys of the node list, in
    /// order of first occurrence.
    #[verifier::loop_isolation(false)]
    fn collect_keys(&self) -> (keys: Vec<(String, String)>)
        ensures
            key_view(keys@) == group_keys(self.nodes@),
    {
        let mut keys: Vec<(String, String)> = Vec::new();
        let n = self.nodes.len();
        let mut i: usize = 0;
        while i < n
            invariant
                i <= n,
                key_view(keys@) == group_keys(self.nodes@.take(i as int)),
            decreases n - i,
        {
            let ghost prefix = self.nodes@.take(i as int);
            let ghost nd = self.nodes@[i as int];
            let klen = keys.len();
            let mut found = false;
            let mut k: usize = 0;
            while k < klen
                invariant
                    k <= klen,
                    klen == keys@.len(),
                    found ==> group_keys(prefix).contains(group_key(nd)),
                    !found ==> forall|q: int|
                        0 <= q < k ==> key_view(keys@)[q] != group_key(nd),
                decreases klen - k,
            {
                if !found {
                    if keys[k].0 == self.nodes[i].gender && keys[k].1 == self.nodes[i].ethnicity {
                        found = true;
                        proof {
                            assert(key_view(keys@)[k as int] == group_key(nd));
                        }
                    }
                }
                k += 1;
            }
            proof {
                assert(self.nodes@.take(i + 1).drop_last() =~= prefix);
                assert(self.nodes@.take(i + 1).last() == nd);
                if !found {
                    assert(!group_keys(prefix).contains(group_key(nd))) by {
                        if group_keys(prefix).contains(group_key(nd)) {
                            let j = choose|j: int|
                                0 <= j < group_keys(prefix).len() && group_keys(prefix)[j]
                                    == group_key(nd);
                            assert(key_view(keys@)[j] != group_key(nd));
                        }
                    }
                }
            }
            if !found {
                let ghost old_keys = keys@;
                let g = self.nodes[i].gender.clone();
                let e = self.nodes[i].ethnicity.clone();
                keys.push((g, e));
                proof {
                    assert(key_view(keys@) =~= key_view(old_keys).push(
                        group_key(nd),
                    ));
                }
            }
            i += 1;
        }
        proof {
            assert(self.nodes@.take(n as int) =~= self.nodes@);
        }
        keys
    }

    /// Group totals: for each (gender, ethnicity) group, in order of
    /// first occurrence, the sum of the member records' counts and
    /// the ordered list of their names.
    #[verifier::loop_isolation(false)]
    pub fn group_totals(&self) -> (r: Vec<GroupTotal>)
        requires
            self.nodes@.len() <= 0x1_0000_0000,
        ensures
            totals_match(self.nodes@, r@),
    {
        let keys = self.collect_keys();
        let mut r: Vec<GroupTotal> = Vec::new();
        let nkeys = keys.len();
        let mut k: usize = 0;
        while k < nkeys
            invariant
                k <= nkeys,
                r@.len() == k,
                nkeys == keys@.len(),
                forall|q: int| 0 <= q < k ==> total_entry_ok(self.nodes@, q, #[trigger] r@[q]),
            decreases nkeys - k,
        {
            let ghost key = group_keys(self.nodes@)[k as int];
            proof {
                assert(key == (keys@[k as int].0@, keys@[k as int].1@));
            }
            let mut total: u64 = 0;
            let mut names: Vec<String> = Vec::new();
            let n = self.nodes.len();
            let mut i: usize = 0;
            while i < n
                invariant
                    i <= n,
                    total == group_total(self.nodes@.take(i as int), key),
                    names@.map_values(|s: String| s@) == group_names(
                        self.nodes@.take(i as int),
                        key,
                    ),
                decreases n - i,
            {
                let ghost prefix = self.nodes@.take(i as int);
                proof {
                    assert(self.nodes@.take(i + 1).drop_last() =~= prefix);
                    assert(self.nodes@.take(i + 1).last() == self.nodes@[i as int]);
                }
                if self.nodes[i].gender == keys[k].0 && self.nodes[i].ethnicity == keys[k].1 {
                    proof {
                        assert(in_group(self.nodes@[i as int], key));
                        lemma_group_total_bounds(prefix, key);
                        assert((i as int) * (u32::MAX as int) + (u32::MAX as int) <= 0x1_0000_0000
                            * (u32::MAX as int)) by (nonlinear_arith)
                            requires
                                (i as int) + 1 <= 0x1_0000_0000,
                        ;
                    }
                    total = total + (self.nodes[i].count as u64);
                    let ghost old_names = names@;
                    names.push(self.nodes[i].name.clone());
                    proof {
                        assert(names@.map_values(|s: String| s@) =~= old_names.map_values(
                            |s: String| s@,
                        ).push(self.nodes@[i as int].name@));
                    }
                } else {
                    proof {
                        assert(!in_group(self.nodes@[i as int], key));
                    }
                }
                i += 1;
            }
            proof {
                assert(self.nodes@.take(n as int) =~= self.nodes@);
            }
            let gt = GroupTotal {
                gender: keys[k].0.clone(),
                ethnicity: keys[k].1.clone(),
                total,
                names,
            };
            r.push(gt);
            k += 1;
        }
        r
    }
}

/// The characters of a histogram are in strictly ascending code-point
/// order.
pub open spec fn chars_sorted(counts: Seq<(char, u64)>) -> bool {
    forall|a: int, b: int|
        0 <= a < b < counts.len() ==> ((#[trigger] counts[a]).0 as u32) < ((
        #[trigger] counts[b]).0 as u32)
}

/// Whether a histogram has an entry for `c`.
pub open spec fn has_letter(counts: Seq<(char, u64)>, c: char) -> bool {
    exists|j: int| 0 <= j < counts.len() && (#[trigger] counts[j]).0 == c
}

/// What one group's histogram holds: entries in ascending character
/// order, one for exactly each character that starts a member's name,
/// carrying how many members it starts.
pub open spec fn counts_match(
    nodes: Seq<NameData>,
    key: (Seq<char>, Seq<char>),
    counts: Seq<(char, u64)>,
) -> bool {
    &&& chars_sorted(counts)
    &&& forall|j: int|
        0 <= j < counts.len() ==> (#[trigger] counts[j]).1 == letter_count(
            nodes,
            key,
            counts[j].0,
        ) && counts[j].1 > 0
    &&& forall|c: char| (#[trigger] letter_count(nodes, key, c)) > 0 ==> has_letter(counts, c)
}

pub open spec fn letter_entry_ok(nodes: Seq<NameData>, q: int, t: LetterCounts) -> bool {
    let key = group_keys(nodes)[q];
    &&& t.gender@ == key.0
    &&& t.ethnicity@ == key.1
    &&& counts_match(nodes, key, t.counts@)
}

/// What the letter aggregation returns: one histogram per distinct
/// group, in order of first occurrence.
pub open spec fn histogram_match(nodes: Seq<NameData>, r: Seq<LetterCounts>) -> bool {
    &&& r.len() == group_keys(nodes).len()
    &&& forall|q: int| 0 <= q < r.len() ==> letter_entry_ok(nodes, q, #[trigger] r[q])
}

/// Distinct characters have distinct code points.
proof fn lemma_char_cast_ne(a: char, b: char)
    requires
        a != b,
    ensures
        a as u32 != b as u32,
{
}

/// The index of the entry for `c`, where there is one.
#[verifier::loop_isolation(false)]
fn find_letter(counts: &Vec<(char, u64)>, c: char) -> (r: Option<usize>)
    ensures
        match r {
            Some(p) => p < counts@.len() && counts@[p as int].0 == c,
            None => !has_letter(counts@, c),
        },
{
    let n = counts.len();
    let mut p: usize = 0;
    while p < n
        invariant
            p <= n,
            forall|q: int| 0 <= q < p ==> (#[trigger] counts@[q]).0 != c,
        decreases n - p,
    {
        if counts[p].0 == c {
            return Some(p);
        }
        p += 1;
    }
    proof {
        if has_letter(counts@, c) {
            let j = choose|j: int| 0 <= j < counts@.len() && (#[trigger] counts@[j]).0 == c;
            assert(counts@[j].0 != c);
        }
    }
    None
}

/// Where a new entry for `c` keeps the histogram sorted.
#[verifier::loop_isolation(false)]
fn letter_insert_pos(counts: &Vec<(char, u64)>, c: char) -> (p: usize)
    requires
        chars_sorted(counts@),
        !has_letter(counts@, c),
    ensures
        p <= counts@.len(),
        forall|q: int| 0 <= q < p ==> ((#[trigger] counts@[q]).0 as u32) < c as u32,
        forall|q: int| p <= q < counts@.len() ==> ((#[trigger] counts@[q]).0 as u32) > c as u32,
{
    let n = counts.len();
    let mut p: usize = 0;
    while p < n
        invariant
            p <= n,
            forall|q: int| 0 <= q < p ==> ((#[trigger] counts@[q]).0 as u32) < c as u32,
        decreases n - p,
    {
        if (counts[p].0 as u32) >= (c as u32) {
            proof {
                assert(counts@[p as int].0 != c) by {
                    if counts@[p as int].0 == c {
                        assert(has_letter(counts@, c));
                    }
                }
                lemma_char_cast_ne(counts@[p as int].0, c);
                assert((counts@[p as int].0 as u32) > c as u32);
                assert forall|q: int|
                    p < q < counts@.len() implies ((#[trigger] counts@[q]).0 as u32)
                    > c as u32 by {
                    assert((counts@[p as int].0 as u32) < (counts@[q].0 as u32));
                }
            }
            return p;
        }
        p += 1;
    }
    p
}

impl Graph {
    /// The starting-letter histogram of every group: for each
    /// (gender, ethnicity) group, in order of first occurrence, how
    /// many member names start with each character, the characters in
    /// ascending code-point order. A member with an empty name
    /// contributes to no letter, though its group still appears.
    #[verifier::loop_isolation(false)]
    pub fn count_names_by_starting_letter(&self) -> (r: Vec<LetterCounts>)
        ensures
            histogram_match(self.nodes@, r@),
    {
        let keys = self.collect_keys();
        let mut r: Vec<LetterCounts> = Vec::new();
        let nkeys = keys.len();
        let mut k: usize = 0;
        while k < nkeys
            invariant
                k <= nkeys,
                r@.len() == k,
                nkeys == keys@.len(),
                forall|q: int| 0 <= q < k ==> letter_entry_ok(self.nodes@, q, #[trigger] r@[q]),
            decreases nkeys - k,
        {
            let ghost key = group_keys(self.nodes@)[k as int];
            proof {
                assert(key == (keys@[k as int].0@, keys@[k as int].1@));
            }
            let mut counts: Vec<(char, u64)> = Vec::new();
            let n = self.nodes.len();
            let mut i: usize = 0;
            while i < n
                invariant
                    i <= n,
                    chars_sorted(counts@),
                    forall|j: int|
                        0 <= j < counts@.len() ==> (#[trigger] counts@[j]).1 == letter_count(
                            self.nodes@.take(i as int),
                            key,
                            counts@[j].0,
                        ) && counts@[j].1 > 0,
                    forall|c: char|
                        (#[trigger] letter_count(self.nodes@.take(i as int), key, c)) > 0
                            ==> has_letter(counts@, c),
                decreases n - i,
            {
                let ghost prefix = self.nodes@.take(i as int);
                proof {
                    assert(self.nodes@.take(i + 1).drop_last() =~= prefix);
                    assert(self.nodes@.take(i + 1).last() == self.nodes@[i as int]);
                }
                let in_grp = self.nodes[i].gender == keys[k].0 && self.nodes[i].ethnicity
                    == keys[k].1;
                proof {
                    assert(in_grp == in_group(self.nodes@[i as int], key));
                }
                if in_grp && self.nodes[i].name.as_str().unicode_len() > 0 {
                    let c = self.nodes[i].name.as_str().get_char(0);
                    let ghost old_counts = counts@;
                    match find_letter(&counts, c) {
                        Some(p) => {
                            let cnt = counts[p].1;
                            proof {
                                lemma_letter_count_bounds(prefix, key, c);
                            }
                            counts.set(p, (c, cnt + 1));
                            proof {
                                assert forall|j: int|
                                    0 <= j < counts@.len() implies (#[trigger] counts@[j]).1
                                    == letter_count(
                                    self.nodes@.take(i + 1),
                                    key,
                                    counts@[j].0,
                                ) && counts@[j].1 > 0 by {
                                    if j != p {
                                        assert(counts@[j] == old_counts[j]);
                                        assert(counts@[j].0 != c) by {
                                            if j < p {
                                                assert((old_counts[j].0 as u32) < (
                                                old_counts[p as int].0 as u32));
                                            } else {
                                                assert((old_counts[p as int].0 as u32) < (
                                                old_counts[j].0 as u32));
                                            }
                                        }
                                    }
                                }
                                assert forall|cc: char|
                                    (#[trigger] letter_count(self.nodes@.take(i + 1), key, cc))
                                        > 0 implies has_letter(counts@, cc) by {
                                    if cc == c {
                                        assert(counts@[p as int].0 == c);
                                    } else {
                                        assert(letter_count(prefix, key, cc) > 0);
                                        let j = choose|j: int|
                                            0 <= j < old_counts.len() && (#[trigger] old_counts[j]).0
                                                == cc;
                                        assert(counts@[j].0 == cc);
                                    }
                                }
                            }
                        },
                        None => {
                            let p = letter_insert_pos(&counts, c);
                            counts.insert(p, (c, 1));
                            proof {
                                old_counts.insert_ensures(p as int, (c, 1u64));
                                lemma_letter_count_bounds(prefix, key, c);
                                assert(letter_count(prefix, key, c) == 0) by {
                                    if letter_count(prefix, key, c) > 0 {
                                        assert(has_letter(old_counts, c));
                                    }
                                }
                                assert forall|a: int, b: int|
                                    0 <= a < b < counts@.len() implies ((
                                #[trigger] counts@[a]).0 as u32) < ((
                                #[trigger] counts@[b]).0 as u32) by {
                                    if b < p {
                                        assert(counts@[a] == old_counts[a] && counts@[b]
                                            == old_counts[b]);
                                    } else if a > p {
                                        assert(counts@[a] == old_counts[a - 1] && counts@[b]
                                            == old_counts[b - 1]);
                                    } else if a < p && b == p {
                                        assert(counts@[a] == old_counts[a]);
                                    } else if a == p && b > p {
                                        assert(counts@[b] == old_counts[b - 1]);
                                    } else if a < p && b > p {
                                        assert(counts@[a] == old_counts[a] && counts@[b]
                                            == old_counts[b - 1]);
                                    }
                                }
                                assert forall|j: int|
                                    0 <= j < counts@.len() implies (#[trigger] counts@[j]).1
                                    == letter_count(
                                    self.nodes@.take(i + 1),
                                    key,
                                    counts@[j].0,
                                ) && counts@[j].1 > 0 by {
                                    if j < p {
                                        assert(counts@[j] == old_counts[j]);
                                        assert((old_counts[j].0 as u32) < c as u32);
                                    } else if j == p {
                                        assert(counts@[j] == (c, 1u64));
                                    } else {
                                        assert(counts@[j] == old_counts[j - 1]);
                                        assert((old_counts[j - 1].0 as u32) > c as u32);
                                    }
                                }
                                assert forall|cc: char|
                                    (#[trigger] letter_count(self.nodes@.take(i + 1), key, cc))
                                        > 0 implies has_letter(counts@, cc) by {
                                    if cc == c {
                                        assert(counts@[p as int].0 == c);
                                    } else {
                                        assert(letter_count(prefix, key, cc) > 0);
                                        let j = choose|j: int|
                                            0 <= j < old_counts.len() && (#[trigger] old_counts[j]).0
                                                == cc;
                                        if j < p {
                                            assert(counts@[j].0 == cc);
                                        } else {
                                            assert(counts@[j + 1].0 == cc);
                                        }
                                    }
                                }
                            }
                        },
                    }
                } else {
                    proof {
                        assert forall|cc: char|
                            (#[trigger] letter_count(self.nodes@.take(i + 1), key, cc))
                                > 0 implies has_letter(counts@, cc) by {
                            assert(letter_count(prefix, key, cc) > 0);
                        }
                    }
                }
                i += 1;
            }
            proof {
                assert(self.nodes@.take(n as int) =~= self.nodes@);
            }
            let lc = LetterCounts {
                gender: keys[k].0.clone(),
                ethnicity: keys[k].1.clone(),
                counts,
            };
            r.push(lc);
            k += 1;
        }
        r
    }
}

/// The observable content of a group-totals result.
pub open spec fn totals_view(r: Seq<GroupTotal>) -> Seq<(Seq<char>, Seq<char>, int, Seq<Seq<char>>)> {
    r.map_values(
        |t: GroupTotal|
            (t.gender@, t.ethnicity@, t.total as int, t.names@.map_values(|n: String| n@)),
    )
}

/// The observable content of a histogram result.
pub open spec fn histogram_view(r: Seq<LetterCounts>) -> Seq<(Seq<char>, Seq<char>, Seq<(char, u64)>)> {
    r.map_values(|t: LetterCounts| (t.gender@, t.ethnicity@, t.counts@))
}

/// The group-totals aggregation is deterministic: any two results that
/// satisfy its contract for one unchanged node sequence carry the same
/// keys, totals and name lists. Running it twice changes nothing.
pub proof fn lemma_group_totals_deterministic(
    nodes: Seq<NameData>,
    a: Seq<GroupTotal>,
    b: Seq<GroupTotal>,
)
    requires
        totals_match(nodes, a),
        totals_match(nodes, b),
    ensures
        totals_view(a) == totals_view(b),
{
    assert forall|q: int|
        0 <= q < totals_view(a).len() implies totals_view(a)[q] == totals_view(b)[q] by {
        assert(total_entry_ok(nodes, q, a[q]));
        assert(total_entry_ok(nodes, q, b[q]));
    }
    assert(totals_view(a) =~= totals_view(b));
}

/// Equal code points mean equal characters.
proof fn lemma_char_cast_eq(a: char, b: char)
    requires
        a as u32 == b as u32,
    ensures
        a == b,
{
}

/// Two histograms in strictly ascending character order that hold the
/// same characters, with agreeing values, are the same sequence.
proof fn lemma_sorted_counts_equal(x: Seq<(char, u64)>, y: Seq<(char, u64)>)
    requires
        chars_sorted(x),
        chars_sorted(y),
        forall|c: char| #[trigger] has_letter(x, c) <==> has_letter(y, c),
        forall|jx: int, jy: int|
            #![trigger x[jx], y[jy]]
            0 <= jx < x.len() && 0 <= jy < y.len() && x[jx].0 == y[jy].0 ==> x[jx].1 == y[jy].1,
    ensures
        x == y,
    decreases x.len(),
{
    if x.len() == 0 {
        if y.len() > 0 {
            assert(has_letter(y, y[0].0));
            assert(has_letter(x, y[0].0));
            let j = choose|j: int| 0 <= j < x.len() && (#[trigger] x[j]).0 == y[0].0;
            assert(false);
        }
        assert(x =~= y);
    } else if y.len() == 0 {
        assert(has_letter(x, x[0].0));
        assert(has_letter(y, x[0].0));
        let j = choose|j: int| 0 <= j < y.len() && (#[trigger] y[j]).0 == x[0].0;
        assert(false);
    } else {
        let cx = x[0].0;
        let cy = y[0].0;
        assert(has_letter(x, cx));
        assert(has_letter(y, cy));
        assert(has_letter(y, cx));
        assert(has_letter(x, cy));
        let jx = choose|j: int| 0 <= j < y.len() && (#[trigger] y[j]).0 == cx;
        let jy = choose|j: int| 0 <= j < x.len() && (#[trigger] x[j]).0 == cy;
        assert(cy as u32 <= cx as u32) by {
            if jx > 0 {
                assert((y[0].0 as u32) < (y[jx].0 as u32));
            }
        }
        assert(cx as u32 <= cy as u32) by {
            if jy > 0 {
                assert((x[0].0 as u32) < (x[jy].0 as u32));
            }
        }
        lemma_char_cast_eq(cx, cy);
        assert(x[0].1 == y[0].1);
        let xt = x.drop_first();
        let yt = y.drop_first();
        assert(forall|q: int| 0 <= q < xt.len() ==> #[trigger] xt[q] == x[q + 1]);
        assert(forall|q: int| 0 <= q < yt.len() ==> #[trigger] yt[q] == y[q + 1]);
        assert(chars_sorted(xt));
        assert(chars_sorted(yt));
        assert forall|c: char| #[trigger] has_letter(xt, c) implies has_letter(yt, c) by {
            let j = choose|j: int| 0 <= j < xt.len() && (#[trigger] xt[j]).0 == c;
            assert(x[j + 1].0 == c);
            assert((x[0].0 as u32) < (x[j + 1].0 as u32));
            assert(has_letter(x, c));
            assert(has_letter(y, c));
            let jj = choose|j2: int| 0 <= j2 < y.len() && (#[trigger] y[j2]).0 == c;
            assert(y[jj].0 == c);
            assert(jj != 0) by {
                lemma_char_cast_ne(x[0].0, c);
            }
            assert(yt[jj - 1].0 == c);
            assert(has_letter(yt, c));
        }
        assert forall|c: char| #[trigger] has_letter(yt, c) implies has_letter(xt, c) by {
            let j = choose|j: int| 0 <= j < yt.len() && (#[trigger] yt[j]).0 == c;
            assert(y[j + 1].0 == c);
            assert((y[0].0 as u32) < (y[j + 1].0 as u32));
            assert(has_letter(y, c));
            assert(has_letter(x, c));
            let jj = choose|j2: int| 0 <= j2 < x.len() && (#[trigger] x[j2]).0 == c;
            assert(jj != 0) by {
                lemma_char_cast_ne(y[0].0, c);
            }
            assert(xt[jj - 1].0 == c);
            assert(has_letter(xt, c));
        }
        lemma_sorted_counts_equal(xt, yt);
        assert(x =~= y) by {
            assert(x.len() == y.len());
            assert forall|q: int| 0 <= q < x.len() implies x[q] == y[q] by {
                if q == 0 {
                    assert(x[0] =~= y[0]);
                } else {
                    assert(x[q] == xt[q - 1] && y[q] == yt[q - 1]);
                }
            }
        }
    }
}

/// The letter aggregation is deterministic: any two results that
/// satisfy its contract for one unchanged node sequence carry the same
/// keys and histograms. Running it twice changes nothing.
pub proof fn lemma_histogram_deterministic(
    nodes: Seq<NameData>,
    a: Seq<LetterCounts>,
    b: Seq<LetterCounts>,
)
    requires
        histogram_match(nodes, a),
        histogram_match(nodes, b),
    ensures
        histogram_view(a) == histogram_view(b),
{
    assert forall|q: int|
        0 <= q < histogram_view(a).len() implies histogram_view(a)[q] == histogram_view(b)[q] by {
        assert(letter_entry_ok(nodes, q, a[q]));
        assert(letter_entry_ok(nodes, q, b[q]));
        let key = group_keys(nodes)[q];
        let x = a[q].counts@;
        let y = b[q].counts@;
        assert forall|c: char| #[trigger] has_letter(x, c) implies has_letter(y, c) by {
            let j = choose|j: int| 0 <= j < x.len() && (#[trigger] x[j]).0 == c;
            assert(x[j].1 == letter_count(nodes, key, c) && x[j].1 > 0);
        }
        assert forall|c: char| #[trigger] has_letter(y, c) implies has_letter(x, c) by {
            let j = choose|j: int| 0 <= j < y.len() && (#[trigger] y[j]).0 == c;
            assert(y[j].1 == letter_count(nodes, key, c) && y[j].1 > 0);
        }
        assert forall|jx: int, jy: int|
            #![trigger x[jx], y[jy]]
            0 <= jx < x.len() && 0 <= jy < y.len() && x[jx].0 == y[jy].0 implies x[jx].1
            == y[jy].1 by {
            assert(x[jx].1 == letter_count(nodes, key, x[jx].0));
            assert(y[jy].1 == letter_count(nodes, key, y[jy].0));
        }
        lemma_sorted_counts_equal(x, y);
    }
    assert(histogram_view(a) =~= histogram_view(b));
}

} // verus!
