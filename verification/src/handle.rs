//! Rows of the `handle` table, the display cache built from them, and the
//! deterministic deduplication of handles that stand for one contact.

use vstd::prelude::*;

use crate::strutil::{lemma_lex_asymmetric, lemma_lex_total, spec_lex_lt, str_lt};

verus! {

/// Represents a single row in the `handle` table.
#[derive(Debug, Clone, PartialEq, Eq)]
pub struct Handle {
    pub rowid: i32,
    /// Identifier for a contact, i.e. a phone number or email address.
    pub id: String,
    /// Field used to disambiguate divergent handles that represent the same
    /// contact.
    pub person_centric_id: Option<String>,
}

/// The mathematical content of a rowid-to-display association.
pub open spec fn pairs_view(s: Seq<(i32, String)>) -> Seq<(i32, Seq<char>)> {
    Seq::new(s.len(), |i: int| (s[i].0, s[i].1@))
}

/// Inserts a pair into a key-sorted sequence, before the first key that is
/// not smaller.
pub open spec fn spec_insert_pair(s: Seq<(i32, Seq<char>)>, x: (i32, Seq<char>)) -> Seq<
    (i32, Seq<char>),
>
    decreases s.len(),
{
    if s.len() == 0 {
        seq![x]
    } else if x.0 <= s[0].0 {
        seq![x] + s
    } else {
        seq![s[0]] + spec_insert_pair(s.drop_first(), x)
    }
}

/// Sorts a pair sequence by key, by repeated insertion.
pub open spec fn spec_sort_pairs(s: Seq<(i32, Seq<char>)>) -> Seq<(i32, Seq<char>)>
    decreases s.len(),
{
    if s.len() == 0 {
        Seq::empty()
    } else {
        spec_insert_pair(spec_sort_pairs(s.drop_first()), s[0])
    }
}

proof fn lemma_insert_pair_len(s: Seq<(i32, Seq<char>)>, x: (i32, Seq<char>))
    ensures
        spec_insert_pair(s, x).len() == s.len() + 1,
    decreases s.len(),
{
    if s.len() > 0 && !(x.0 <= s[0].0) {
        lemma_insert_pair_len(s.drop_first(), x);
    }
}

/// Sorting keeps the length.
pub proof fn lemma_sort_pairs_len(s: Seq<(i32, Seq<char>)>)
    ensures
        spec_sort_pairs(s).len() == s.len(),
    decreases s.len(),
{
    if s.len() > 0 {
        lemma_sort_pairs_len(s.drop_first());
        lemma_insert_pair_len(spec_sort_pairs(s.drop_first()), s[0]);
    }
}

/// Where the first not-smaller key sits, insertion is one sequence insert.
proof fn lemma_insert_pair_at(s: Seq<(i32, Seq<char>)>, x: (i32, Seq<char>), pos: int)
    requires
        0 <= pos <= s.len(),
        forall|k: int| 0 <= k < pos ==> s[k].0 < x.0,
        pos < s.len() ==> x.0 <= s[pos].0,
    ensures
        spec_insert_pair(s, x) == s.insert(pos, x),
    decreases s.len(),
{
    if s.len() == 0 {
        assert(spec_insert_pair(s, x) =~= s.insert(0, x));
    } else if pos == 0 {
        assert(spec_insert_pair(s, x) =~= s.insert(0, x));
    } else {
        lemma_insert_pair_at(s.drop_first(), x, pos - 1);
        assert(seq![s[0]] + s.drop_first().insert(pos - 1, x) =~= s.insert(pos, x));
    }
}

/// Inserts one pair into a key-sorted vector, keeping it sorted.
fn insert_pair_sorted(v: &mut Vec<(i32, String)>, x: (i32, String))
    ensures
        pairs_view(final(v)@) == spec_insert_pair(pairs_view(old(v)@), (x.0, x.1@)),
{
    let ghost s = pairs_view(old(v)@);
    let ghost xv = (x.0, x.1@);
    let mut pos: usize = 0;
    while pos < v.len() && v[pos].0 < x.0
        invariant
            pos <= v@.len(),
            s == pairs_view(v@),
            forall|k: int| 0 <= k < pos ==> s[k].0 < x.0,
        decreases v@.len() - pos,
    {
        pos += 1;
    }
    proof {
        lemma_insert_pair_at(s, xv, pos as int);
    }
    v.insert(pos, x);
    proof {
        assert(pairs_view(v@) =~= s.insert(pos as int, xv));
    }
}

/// Sorts the pairs by rowid.
fn sort_pairs(entries: &Vec<(i32, String)>) -> (r: Vec<(i32, String)>)
    ensures
        pairs_view(r@) == spec_sort_pairs(pairs_view(entries@)),
{
    let mut out: Vec<(i32, String)> = Vec::new();
    let mut i: usize = entries.len();
    proof {
        assert(pairs_view(entries@).skip(i as int) =~= Seq::empty());
        assert(pairs_view(out@) =~= Seq::empty());
    }
    while i > 0
        invariant
            i <= entries@.len(),
            pairs_view(out@) == spec_sort_pairs(pairs_view(entries@).skip(i as int)),
        decreases i,
    {
        i -= 1;
        let entry = (entries[i].0, entries[i].1.clone());
        insert_pair_sorted(&mut out, entry);
        proof {
            let full = pairs_view(entries@);
            assert(full.skip(i as int).drop_first() =~= full.skip(i as int + 1));
            assert(full.skip(i as int)[0] == (entries@[i as int].0, entries@[i as int].1@));
        }
    }
    proof {
        assert(pairs_view(entries@).skip(0) =~= pairs_view(entries@));
    }
    out
}

/// The first index at or after `j` whose display equals `v`, or the length
/// when there is none.
pub open spec fn spec_first_eq(s: Seq<(i32, Seq<char>)>, v: Seq<char>, j: int) -> int
    decreases s.len() - j,
{
    if j < 0 || j >= s.len() {
        s.len() as int
    } else if s[j].1 == v {
        j
    } else {
        spec_first_eq(s, v, j + 1)
    }
}

/// How many entries among the first `i` are the first occurrence of their
/// display.
pub open spec fn spec_distinct_count(s: Seq<(i32, Seq<char>)>, i: int) -> int
    decreases i,
{
    if i <= 0 {
        0
    } else {
        spec_distinct_count(s, i - 1) + (if spec_first_eq(s, s[i - 1].1, 0) == i - 1 {
            1int
        } else {
            0int
        })
    }
}

/// The dense identifier assignment: each entry is paired with the number of
/// distinct displays seen strictly before the first occurrence of its own
/// display.
pub open spec fn spec_dedupe(s: Seq<(i32, Seq<char>)>) -> Seq<(i32, i32)> {
    Seq::new(s.len(), |i: int| (s[i].0, spec_distinct_count(s, spec_first_eq(s, s[i].1, 0)) as i32))
}

proof fn lemma_first_eq_bounds(s: Seq<(i32, Seq<char>)>, v: Seq<char>, j: int)
    requires
        0 <= j <= s.len(),
    ensures
        j <= spec_first_eq(s, v, j) <= s.len(),
        spec_first_eq(s, v, j) < s.len() ==> s[spec_first_eq(s, v, j)].1 == v,
        forall|k: int| j <= k < spec_first_eq(s, v, j) ==> s[k].1 != v,
    decreases s.len() - j,
{
    if j < s.len() && s[j].1 != v {
        lemma_first_eq_bounds(s, v, j + 1);
    }
}

proof fn lemma_distinct_count_le(s: Seq<(i32, Seq<char>)>, i: int)
    requires
        0 <= i <= s.len(),
    ensures
        0 <= spec_distinct_count(s, i) <= i,
        forall|j: int| 0 <= j <= i ==> spec_distinct_count(s, j) <= spec_distinct_count(s, i),
    decreases i,
{
    if i > 0 {
        lemma_distinct_count_le(s, i - 1);
    }
}

/// Given the initial set of duplicated handles, deduplicate them.
///
/// This returns pairs that map the real handle ID to a new deduplicated
/// unique handle ID that represents a single handle for all of the
/// duplicate handles. The entries are processed in ascending rowid order,
/// so for a fixed input the output is the same on every run.
pub fn dedupe(duplicated_data: &Vec<(i32, String)>) -> (r: Vec<(i32, i32)>)
    requires
        duplicated_data@.len() < 0x8000_0000,
    ensures
        r@ == spec_dedupe(spec_sort_pairs(pairs_view(duplicated_data@))),
{
    let sorted = sort_pairs(duplicated_data);
    let ghost s = pairs_view(sorted@);
    proof {
        lemma_sort_pairs_len(pairs_view(duplicated_data@));
    }
    let n = sorted.len();
    let mut out: Vec<(i32, i32)> = Vec::new();
    let mut next: i32 = 0;
    let mut i: usize = 0;
    while i < n
        invariant
            i <= n == s.len() == sorted@.len() < 0x8000_0000,
            s == pairs_view(sorted@),
            out@.len() == i,
            next == spec_distinct_count(s, i as int),
            forall|k: int|
                0 <= k < i ==> out@[k] == (s[k].0, spec_distinct_count(
                    s,
                    spec_first_eq(s, s[k].1, 0),
                ) as i32),
        decreases n - i,
    {
        // Find the first entry with the same display.
        let mut f: usize = 0;
        while f < i && !(sorted[f].1 == sorted[i].1)
            invariant
                f <= i < n == s.len() == sorted@.len(),
                s == pairs_view(sorted@),
                spec_first_eq(s, s[i as int].1, 0) == spec_first_eq(s, s[i as int].1, f as int),
            decreases i - f,
        {
            f += 1;
        }
        proof {
            lemma_distinct_count_le(s, i as int);
            lemma_first_eq_bounds(s, s[i as int].1, f as int);
        }
        if f < i {
            proof {
                assert(spec_first_eq(s, s[i as int].1, 0) == f as int);
                assert(s[f as int].1 == s[i as int].1);
                assert(spec_first_eq(s, s[f as int].1, 0) == f as int);
            }
            let id = out[f].1;
            out.push((sorted[i].0, id));
        } else {
            proof {
                assert(spec_first_eq(s, s[i as int].1, 0) == i as int);
            }
            out.push((sorted[i].0, next));
            next += 1;
        }
        i += 1;
    }
    proof {
        assert(out@ =~= spec_dedupe(s));
    }
    out
}

/// Deduplication is a function of the handle cache alone: two runs over the
/// same entries assign identical pairs.
pub proof fn lemma_dedupe_deterministic(
    entries: Seq<(i32, Seq<char>)>,
    r1: Seq<(i32, i32)>,
    r2: Seq<(i32, i32)>,
)
    requires
        r1 == spec_dedupe(spec_sort_pairs(entries)),
        r2 == spec_dedupe(spec_sort_pairs(entries)),
    ensures
        r1 == r2,
{
}

/// Every assigned identifier lies below the number of distinct displays.
pub proof fn lemma_dedupe_dense_image(s: Seq<(i32, Seq<char>)>)
    requires
        s.len() < 0x8000_0000,
    ensures
        forall|i: int|
            0 <= i < s.len() ==> 0 <= (#[trigger] spec_dedupe(s)[i]).1 < spec_distinct_count(
                s,
                s.len() as int,
            ),
{
    assert forall|i: int|
        0 <= i < s.len() implies 0 <= (#[trigger] spec_dedupe(s)[i]).1 < spec_distinct_count(
        s,
        s.len() as int,
    ) by {
        lemma_first_eq_bounds(s, s[i].1, 0);
        let f = spec_first_eq(s, s[i].1, 0);
        assert(f <= i) by {
            if f > i {
                assert(s[i].1 != s[i].1);
            }
        }
        lemma_distinct_count_le(s, f);
        assert(spec_distinct_count(s, f + 1) == spec_distinct_count(s, f) + 1) by {
            lemma_first_eq_bounds(s, s[f].1, 0);
        }
        lemma_distinct_count_le(s, s.len() as int);
        assert(spec_distinct_count(s, f + 1) <= spec_distinct_count(s, s.len() as int));
        assert(0 <= spec_distinct_count(s, f) < 0x8000_0000);
    }
}

/// Whether some input pair carries this rowid.
pub open spec fn spec_has_key(s: Seq<(i32, Seq<char>)>, rid: i32) -> bool {
    exists|i: int| 0 <= i < s.len() && (#[trigger] s[i]).0 == rid
}

/// Whether some assignment carries this rowid.
pub open spec fn spec_has_assigned_key(s: Seq<(i32, i32)>, rid: i32) -> bool {
    exists|i: int| 0 <= i < s.len() && (#[trigger] s[i]).0 == rid
}

proof fn lemma_insert_pair_has_key(s: Seq<(i32, Seq<char>)>, x: (i32, Seq<char>), rid: i32)
    ensures
        spec_has_key(spec_insert_pair(s, x), rid) <==> (x.0 == rid || spec_has_key(s, rid)),
    decreases s.len(),
{
    let r = spec_insert_pair(s, x);
    if s.len() == 0 {
        if x.0 == rid {
            assert(r[0].0 == rid);
        }
        if spec_has_key(r, rid) {
            let i = choose|i: int| 0 <= i < r.len() && (#[trigger] r[i]).0 == rid;
            assert(r[i] == x);
        }
    } else if x.0 <= s[0].0 {
        if x.0 == rid {
            assert(r[0].0 == rid);
        }
        if spec_has_key(s, rid) {
            let i = choose|i: int| 0 <= i < s.len() && (#[trigger] s[i]).0 == rid;
            assert(r[i + 1].0 == rid);
        }
        if spec_has_key(r, rid) {
            let i = choose|i: int| 0 <= i < r.len() && (#[trigger] r[i]).0 == rid;
            if i > 0 {
                assert(s[i - 1].0 == rid);
            }
        }
    } else {
        lemma_insert_pair_has_key(s.drop_first(), x, rid);
        let tail = spec_insert_pair(s.drop_first(), x);
        if x.0 == rid || spec_has_key(s, rid) {
            if s[0].0 == rid {
                assert(r[0].0 == rid);
            } else if x.0 == rid {
                let i = choose|i: int| 0 <= i < tail.len() && (#[trigger] tail[i]).0 == rid;
                assert(r[i + 1].0 == rid);
            } else {
                let i = choose|i: int| 0 <= i < s.len() && (#[trigger] s[i]).0 == rid;
                if i == 0 {
                    assert(r[0].0 == rid);
                } else {
                    assert(s.drop_first()[i - 1].0 == rid);
                    let j = choose|j: int| 0 <= j < tail.len() && (#[trigger] tail[j]).0 == rid;
                    assert(r[j + 1].0 == rid);
                }
            }
        }
        if spec_has_key(r, rid) {
            let i = choose|i: int| 0 <= i < r.len() && (#[trigger] r[i]).0 == rid;
            if i == 0 {
                assert(s[0].0 == rid);
            } else {
                assert(tail[i - 1].0 == rid);
                if !(x.0 == rid) {
                    let j = choose|j: int|
                        0 <= j < s.drop_first().len() && (#[trigger] s.drop_first()[j]).0 == rid;
                    assert(s[j + 1].0 == rid);
                }
            }
        }
    }
}

proof fn lemma_sort_pairs_has_key(s: Seq<(i32, Seq<char>)>, rid: i32)
    ensures
        spec_has_key(spec_sort_pairs(s), rid) <==> spec_has_key(s, rid),
    decreases s.len(),
{
    if s.len() > 0 {
        lemma_sort_pairs_has_key(s.drop_first(), rid);
        lemma_insert_pair_has_key(spec_sort_pairs(s.drop_first()), s[0], rid);
        if spec_has_key(s, rid) && s[0].0 != rid {
            let i = choose|i: int| 0 <= i < s.len() && (#[trigger] s[i]).0 == rid;
            assert(s.drop_first()[i - 1].0 == rid);
        }
        if spec_has_key(s.drop_first(), rid) {
            let i = choose|i: int|
                0 <= i < s.drop_first().len() && (#[trigger] s.drop_first()[i]).0 == rid;
            assert(s[i + 1].0 == rid);
        }
    }
}

/// Deduplication keeps exactly the input's rowids: the assignment holds
/// one pair per input pair, and a rowid is assigned an identifier iff it
/// appears among the input pairs.
pub proof fn lemma_dedupe_keys(entries: Seq<(i32, Seq<char>)>)
    ensures
        spec_dedupe(spec_sort_pairs(entries)).len() == entries.len(),
        forall|rid: i32|
            #![trigger spec_has_assigned_key(spec_dedupe(spec_sort_pairs(entries)), rid)]
            spec_has_assigned_key(spec_dedupe(spec_sort_pairs(entries)), rid) <==> spec_has_key(
                entries,
                rid,
            ),
{
    let sorted = spec_sort_pairs(entries);
    let out = spec_dedupe(sorted);
    lemma_sort_pairs_len(entries);
    assert forall|rid: i32|
        spec_has_assigned_key(out, rid) <==> spec_has_key(entries, rid) by {
        lemma_sort_pairs_has_key(entries, rid);
        if spec_has_assigned_key(out, rid) {
            let i = choose|i: int| 0 <= i < out.len() && (#[trigger] out[i]).0 == rid;
            assert(sorted[i].0 == rid);
        }
        if spec_has_key(sorted, rid) {
            let i = choose|i: int| 0 <= i < sorted.len() && (#[trigger] sorted[i]).0 == rid;
            assert(out[i].0 == rid);
        }
    }
}

/// Every identifier below the number of distinct displays is assigned to
/// some entry, so the image of the assignment is exactly `0 .. k`.
pub proof fn lemma_dedupe_id_attained(s: Seq<(i32, Seq<char>)>, id: int)
    requires
        s.len() < 0x8000_0000,
        0 <= id < spec_distinct_count(s, s.len() as int),
    ensures
        exists|i: int| 0 <= i < s.len() && (#[trigger] spec_dedupe(s)[i]).1 == id,
{
    lemma_dense_surjective(s, s.len() as int, id);
    let f = choose|f: int|
        0 <= f < s.len() && #[trigger] spec_first_eq(s, s[f].1, 0) == f && spec_distinct_count(
            s,
            f,
        ) == id;
    lemma_distinct_count_le(s, f);
    assert(spec_first_eq(s, s[f].1, 0) == f);
    assert(0 <= id < 0x8000_0000);
    assert(spec_dedupe(s)[f].1 == id);
}

proof fn lemma_dense_surjective(s: Seq<(i32, Seq<char>)>, i: int, id: int)
    requires
        0 <= i <= s.len(),
        0 <= id < spec_distinct_count(s, i),
    ensures
        exists|f: int|
            0 <= f < i && #[trigger] spec_first_eq(s, s[f].1, 0) == f && spec_distinct_count(s, f)
                == id,
    decreases i,
{
    if i > 0 {
        if id < spec_distinct_count(s, i - 1) {
            lemma_dense_surjective(s, i - 1, id);
            let f = choose|f: int|
                0 <= f < i - 1 && #[trigger] spec_first_eq(s, s[f].1, 0) == f
                    && spec_distinct_count(s, f) == id;
            assert(spec_first_eq(s, s[f].1, 0) == f && spec_distinct_count(s, f) == id);
        } else {
            assert(spec_first_eq(s, s[i - 1].1, 0) == i - 1 && spec_distinct_count(s, i - 1) == id);
        }
    }
}

/// The first index at or after `j` whose key equals `k`, or the length when
/// there is none.
pub open spec fn spec_key_idx(s: Seq<(i32, Seq<char>)>, k: i32, j: int) -> int
    decreases s.len() - j,
{
    if j < 0 || j >= s.len() {
        s.len() as int
    } else if s[j].0 == k {
        j
    } else {
        spec_key_idx(s, k, j + 1)
    }
}

/// Replaces the first entry with key `k`, or appends one.
pub open spec fn spec_upsert(s: Seq<(i32, Seq<char>)>, k: i32, v: Seq<char>) -> Seq<
    (i32, Seq<char>),
> {
    let f = spec_key_idx(s, k, 0);
    if f < s.len() {
        s.update(f, (k, v))
    } else {
        s.push((k, v))
    }
}

/// The value stored under key `k`, if any.
pub open spec fn spec_assoc_lookup(s: Seq<(i32, Seq<char>)>, k: i32) -> Option<Seq<char>> {
    let f = spec_key_idx(s, k, 0);
    if f < s.len() {
        Option::Some(s[f].1)
    } else {
        Option::None
    }
}

/// Inserts or replaces one entry of a rowid-to-display vector.
fn upsert_pair(v: &mut Vec<(i32, String)>, k: i32, val: String)
    ensures
        pairs_view(final(v)@) == spec_upsert(pairs_view(old(v)@), k, val@),
{
    let ghost s = pairs_view(old(v)@);
    let mut pos: usize = 0;
    while pos < v.len() && v[pos].0 != k
        invariant
            pos <= v@.len(),
            s == pairs_view(v@),
            spec_key_idx(s, k, 0) == spec_key_idx(s, k, pos as int),
        decreases v@.len() - pos,
    {
        pos += 1;
    }
    if pos < v.len() {
        proof {
            assert(spec_key_idx(s, k, 0) == pos as int);
        }
        v[pos] = (k, val);
        proof {
            assert(pairs_view(v@) =~= s.update(pos as int, (k, val@)));
        }
    } else {
        proof {
            assert(spec_key_idx(s, k, 0) == s.len() as int);
        }
        v.push((k, val));
        proof {
            assert(pairs_view(v@) =~= s.push((k, val@)));
        }
    }
}

/// The rowid and display of each handle row.
pub open spec fn handles_view(s: Seq<Handle>) -> Seq<(i32, Seq<char>)> {
    Seq::new(s.len(), |i: int| (s[i].rowid, s[i].id@))
}

/// The map after upserting the first `i` pairs of `xs` into `init`, in
/// order.
pub open spec fn spec_fold_upserts(
    init: Seq<(i32, Seq<char>)>,
    xs: Seq<(i32, Seq<char>)>,
    i: int,
) -> Seq<(i32, Seq<char>)>
    decreases i,
{
    if i <= 0 {
        init
    } else {
        let prev = spec_fold_upserts(init, xs, i - 1);
        spec_upsert(prev, xs[i - 1].0, xs[i - 1].1)
    }
}

/// The display cache: `0` maps to `Me`, every handle row maps its rowid to
/// its identifier, and the shared-contact pairs overwrite the rows of
/// contacts that appear under several handles.
pub open spec fn spec_cache(
    handles: Seq<(i32, Seq<char>)>,
    dupes: Seq<(i32, Seq<char>)>,
) -> Seq<(i32, Seq<char>)> {
    spec_fold_upserts(
        spec_fold_upserts(seq![(0i32, "Me"@)], handles, handles.len() as int),
        dupes,
        dupes.len() as int,
    )
}

/// Generate an association for looking up contacts by their IDs, collapsing
/// duplicate contacts to the same display string regardless of service.
/// Handle ID 0 is self in group chats.
pub fn cache(handles: &Vec<Handle>, dupe_contacts: &Vec<(i32, String)>) -> (r: Vec<(i32, String)>)
    ensures
        pairs_view(r@) == spec_cache(handles_view(handles@), pairs_view(dupe_contacts@)),
{
    let ghost hview = handles_view(handles@);
    let ghost dview = pairs_view(dupe_contacts@);
    let mut map: Vec<(i32, String)> = Vec::new();
    map.push((0, "Me".to_owned()));
    proof {
        assert(pairs_view(map@) =~= seq![(0i32, "Me"@)]);
    }
    let mut i: usize = 0;
    while i < handles.len()
        invariant
            i <= handles@.len(),
            hview == handles_view(handles@),
            pairs_view(map@) == spec_fold_upserts(seq![(0i32, "Me"@)], hview, i as int),
        decreases handles.len() - i,
    {
        let contact = &handles[i];
        upsert_pair(&mut map, contact.rowid, contact.id.clone());
        i += 1;
    }
    let mut j: usize = 0;
    while j < dupe_contacts.len()
        invariant
            j <= dupe_contacts@.len(),
            hview == handles_view(handles@),
            dview == pairs_view(dupe_contacts@),
            pairs_view(map@) == spec_fold_upserts(
                spec_fold_upserts(seq![(0i32, "Me"@)], hview, hview.len() as int),
                dview,
                j as int,
            ),
        decreases dupe_contacts.len() - j,
    {
        let entry = (dupe_contacts[j].0, dupe_contacts[j].1.clone());
        upsert_pair(&mut map, entry.0, entry.1);
        j += 1;
    }
    map
}

/// One row of the shared-contact query: a person-centric identifier with a
/// handle rowid and its plain identifier.
#[derive(Debug, Clone, PartialEq, Eq)]
pub struct PersonMapping {
    pub person_centric_id: String,
    pub rowid: i32,
    pub id: String,
}

/// The mathematical content of the shared-contact rows.
pub open spec fn mappings_view(s: Seq<PersonMapping>) -> Seq<(Seq<char>, i32, Seq<char>)> {
    Seq::new(s.len(), |i: int| (s[i].person_centric_id@, s[i].rowid, s[i].id@))
}

/// The views of a vector of strings.
pub open spec fn strs_view(s: Seq<String>) -> Seq<Seq<char>> {
    Seq::new(s.len(), |i: int| s[i]@)
}

/// The views of the equivalence classes: person-centric identifier with its
/// sorted identifiers.
pub open spec fn classes_view(s: Seq<(String, Vec<String>)>) -> Seq<(Seq<char>, Seq<Seq<char>>)> {
    Seq::new(s.len(), |i: int| (s[i].0@, strs_view(s[i].1@)))
}

/// Inserts a string into a sorted sequence without duplicating one that is
/// already present.
pub open spec fn spec_sorted_insert_str(s: Seq<Seq<char>>, v: Seq<char>) -> Seq<Seq<char>>
    decreases s.len(),
{
    if s.len() == 0 {
        seq![v]
    } else if v == s[0] {
        s
    } else if spec_lex_lt(v, s[0]) {
        seq![v] + s
    } else {
        seq![s[0]] + spec_sorted_insert_str(s.drop_first(), v)
    }
}

/// Where the scan stops, sorted insertion is one sequence insert, or
/// nothing when the string is already there.
proof fn lemma_sorted_insert_str_at(s: Seq<Seq<char>>, v: Seq<char>, pos: int)
    requires
        0 <= pos <= s.len(),
        forall|k: int| 0 <= k < pos ==> spec_lex_lt(#[trigger] s[k], v),
        pos < s.len() ==> !spec_lex_lt(s[pos], v),
    ensures
        pos < s.len() && s[pos] == v ==> spec_sorted_insert_str(s, v) == s,
        !(pos < s.len() && s[pos] == v) ==> spec_sorted_insert_str(s, v) == s.insert(pos, v),
    decreases s.len(),
{
    if s.len() == 0 {
        assert(spec_sorted_insert_str(s, v) =~~= s.insert(0, v));
    } else if pos == 0 {
        if s[0] == v {
        } else {
            lemma_lex_total(v, s[0]);
            assert(spec_lex_lt(v, s[0]));
            assert(seq![v] + s =~~= s.insert(0, v));
        }
    } else {
        assert(spec_lex_lt(s[0], v));
        lemma_lex_asymmetric(s[0], v);
        assert(s[0] != v) by {
            if s[0] == v {
                assert(spec_lex_lt(v, v) && spec_lex_lt(v, v));
            }
        }
        assert(!spec_lex_lt(v, s[0]));
        lemma_sorted_insert_str_at(s.drop_first(), v, pos - 1);
        if pos < s.len() && s[pos] == v {
            assert(s.drop_first()[pos - 1] == v);
            assert(seq![s[0]] + s.drop_first() =~~= s);
        } else {
            assert(seq![s[0]] + s.drop_first().insert(pos - 1, v) =~~= s.insert(pos, v));
        }
    }
}

/// Inserts one identifier into a sorted, duplicate-free vector.
fn sorted_insert_str(v: &mut Vec<String>, x: String)
    ensures
        strs_view(final(v)@) == spec_sorted_insert_str(strs_view(old(v)@), x@),
{
    let ghost s = strs_view(old(v)@);
    let mut pos: usize = 0;
    while pos < v.len() && crate::strutil::str_lt(v[pos].as_str(), x.as_str())
        invariant
            pos <= v@.len(),
            s == strs_view(v@),
            forall|k: int| 0 <= k < pos ==> spec_lex_lt(#[trigger] s[k], x@),
        decreases v@.len() - pos,
    {
        pos += 1;
    }
    proof {
        lemma_sorted_insert_str_at(s, x@, pos as int);
    }
    if pos < v.len() && v[pos] == x {
        return ;
    }
    v.insert(pos, x);
    proof {
        assert(strs_view(v@) =~~= s.insert(pos as int, x@));
    }
}

/// The first class index at or after `j` for a person-centric identifier.
pub open spec fn spec_class_idx(
    classes: Seq<(Seq<char>, Seq<Seq<char>>)>,
    pcid: Seq<char>,
    j: int,
) -> int
    decreases classes.len() - j,
{
    if j < 0 || j >= classes.len() {
        classes.len() as int
    } else if classes[j].0 == pcid {
        j
    } else {
        spec_class_idx(classes, pcid, j + 1)
    }
}

/// Adds one identifier to the class of its person-centric identifier,
/// opening a new class when none exists.
pub open spec fn spec_add_class(
    classes: Seq<(Seq<char>, Seq<Seq<char>>)>,
    pcid: Seq<char>,
    id: Seq<char>,
) -> Seq<(Seq<char>, Seq<Seq<char>>)> {
    let f = spec_class_idx(classes, pcid, 0);
    if f < classes.len() {
        classes.update(f, (pcid, spec_sorted_insert_str(classes[f].1, id)))
    } else {
        classes.push((pcid, seq![id]))
    }
}

/// The sorted identifiers of a class, empty when the identifier has no
/// class.
pub open spec fn spec_class_of(
    classes: Seq<(Seq<char>, Seq<Seq<char>>)>,
    pcid: Seq<char>,
) -> Seq<Seq<char>> {
    let f = spec_class_idx(classes, pcid, 0);
    if f < classes.len() {
        classes[f].1
    } else {
        Seq::empty()
    }
}

/// The classes built from the first `i` rows.
pub open spec fn spec_classes(rows: Seq<(Seq<char>, i32, Seq<char>)>, i: int) -> Seq<
    (Seq<char>, Seq<Seq<char>>),
>
    decreases i,
{
    if i <= 0 {
        Seq::empty()
    } else {
        spec_add_class(spec_classes(rows, i - 1), rows[i - 1].0, rows[i - 1].2)
    }
}

/// Identifiers joined by single spaces.
pub open spec fn spec_join_tail(ids: Seq<Seq<char>>, j: int) -> Seq<char>
    decreases ids.len() - j,
{
    if j < 0 || j >= ids.len() {
        Seq::empty()
    } else {
        seq![' '] + ids[j] + spec_join_tail(ids, j + 1)
    }
}

/// The canonical display of a class: its identifiers joined by spaces.
pub open spec fn spec_join_space(ids: Seq<Seq<char>>) -> Seq<char> {
    if ids.len() == 0 {
        Seq::empty()
    } else {
        ids[0] + spec_join_tail(ids, 1)
    }
}

/// Joins sorted identifiers with single spaces.
fn join_space(ids: &Vec<String>) -> (r: String)
    ensures
        r@ == spec_join_space(strs_view(ids@)),
{
    let ghost iv = strs_view(ids@);
    let mut out = String::new();
    let mut j: usize = 0;
    while j < ids.len()
        invariant
            j <= ids@.len(),
            iv == strs_view(ids@),
            j == 0 ==> out@ + spec_join_space(iv) == spec_join_space(iv),
            j > 0 ==> out@ + spec_join_tail(iv, j as int) == spec_join_space(iv),
        decreases ids.len() - j,
    {
        let ghost pre = out@;
        if j > 0 {
            out.append(" ");
        }
        out.append(ids[j].as_str());
        proof {
            reveal_strlit(" ");
            assert(" "@ =~= seq![' ']);
            if j == 0 {
                assert(out@ =~= pre + iv[0]);
            } else {
                assert(out@ =~= pre + (seq![' '] + iv[j as int]));
            }
            assert(out@ + spec_join_tail(iv, j as int + 1) =~= spec_join_space(iv));
        }
        j += 1;
    }
    proof {
        if iv.len() == 0 {
            assert(out@ =~= spec_join_space(iv));
        } else {
            assert(spec_join_tail(iv, iv.len() as int) =~= Seq::<char>::empty());
            assert(out@ + Seq::<char>::empty() =~= out@);
        }
    }
    out
}

/// The rowid map of the second pass over the first `j` rows: each rowid is
/// sent to the joined display of its person's class.
pub open spec fn spec_person_pass(
    rows: Seq<(Seq<char>, i32, Seq<char>)>,
    classes: Seq<(Seq<char>, Seq<Seq<char>>)>,
    j: int,
) -> Seq<(i32, Seq<char>)>
    decreases j,
{
    if j <= 0 {
        Seq::empty()
    } else {
        spec_upsert(
            spec_person_pass(rows, classes, j - 1),
            rows[j - 1].1,
            spec_join_space(spec_class_of(classes, rows[j - 1].0)),
        )
    }
}

/// The shared-contact map: each rowid that carries a person-centric
/// identifier is sent to the space-joined, sorted set of every identifier
/// that person appears under.
pub open spec fn spec_person_id_map(rows: Seq<(Seq<char>, i32, Seq<char>)>) -> Seq<
    (i32, Seq<char>),
> {
    spec_person_pass(rows, spec_classes(rows, rows.len() as int), rows.len() as int)
}

/// This method generates pairs sending each handle rowid in the
/// shared-contact rows to a combined string that represents all of the
/// copies, so any handle ID will always map to the same string for a given
/// chat participant.
pub fn get_person_id_map(rows: &Vec<PersonMapping>) -> (r: Vec<(i32, String)>)
    ensures
        pairs_view(r@) == spec_person_id_map(mappings_view(rows@)),
{
    let ghost rv = mappings_view(rows@);
    let mut classes: Vec<(String, Vec<String>)> = Vec::new();

    // First pass: collect the identifiers of each person-centric id.
    let mut i: usize = 0;
    while i < rows.len()
        invariant
            i <= rows@.len(),
            rv == mappings_view(rows@),
            classes_view(classes@) == spec_classes(rv, i as int),
        decreases rows.len() - i,
    {
        let ghost cv = classes_view(classes@);
        let row = &rows[i];
        let mut pos: usize = 0;
        while pos < classes.len() && !(classes[pos].0 == row.person_centric_id)
            invariant
                pos <= classes@.len(),
                cv == classes_view(classes@),
                row == &rows@[i as int],
                i < rows@.len(),
                rv == mappings_view(rows@),
                spec_class_idx(cv, row.person_centric_id@, 0) == spec_class_idx(
                    cv,
                    row.person_centric_id@,
                    pos as int,
                ),
            decreases classes@.len() - pos,
        {
            pos += 1;
        }
        if pos < classes.len() {
            proof {
                assert(spec_class_idx(cv, row.person_centric_id@, 0) == pos as int);
            }
            let (key, mut ids) = classes.remove(pos);
            sorted_insert_str(&mut ids, row.id.clone());
            classes.insert(pos, (key, ids));
            proof {
                assert(classes_view(classes@) =~~= cv.update(
                    pos as int,
                    (rv[i as int].0, spec_sorted_insert_str(cv[pos as int].1, rv[i as int].2)),
                ));
            }
        } else {
            proof {
                assert(spec_class_idx(cv, row.person_centric_id@, 0) == cv.len() as int);
            }
            let mut ids: Vec<String> = Vec::new();
            ids.push(row.id.clone());
            classes.push((row.person_centric_id.clone(), ids));
            proof {
                assert(strs_view(seq![rows@[i as int].id]) =~= seq![rv[i as int].2]);
                assert(classes_view(classes@) =~~= cv.push((rv[i as int].0, seq![rv[i as int].2])));
            }
        }
        i += 1;
    }

    // Second pass: point each rowid to the joined identifiers of its class.
    let ghost cv = classes_view(classes@);
    let mut out: Vec<(i32, String)> = Vec::new();
    let mut j: usize = 0;
    while j < rows.len()
        invariant
            j <= rows@.len(),
            rv == mappings_view(rows@),
            cv == classes_view(classes@),
            cv == spec_classes(rv, rv.len() as int),
            pairs_view(out@) == spec_person_pass(rv, cv, j as int),
        decreases rows.len() - j,
    {
        let row = &rows[j];
        let mut pos: usize = 0;
        while pos < classes.len() && !(classes[pos].0 == row.person_centric_id)
            invariant
                pos <= classes@.len(),
                cv == classes_view(classes@),
                row == &rows@[j as int],
                j < rows@.len(),
                rv == mappings_view(rows@),
                spec_class_idx(cv, row.person_centric_id@, 0) == spec_class_idx(
                    cv,
                    row.person_centric_id@,
                    pos as int,
                ),
            decreases classes@.len() - pos,
        {
            pos += 1;
        }
        let joined = if pos < classes.len() {
            proof {
                assert(spec_class_idx(cv, row.person_centric_id@, 0) == pos as int);
            }
            join_space(&classes[pos].1)
        } else {
            proof {
                assert(spec_class_idx(cv, row.person_centric_id@, 0) == cv.len() as int);
                assert(spec_join_space(Seq::<Seq<char>>::empty()) =~= Seq::<char>::empty());
            }
            String::new()
        };
        upsert_pair(&mut out, row.rowid, joined);
        j += 1;
    }
    out
}

/// The member list of a chat written out as decimal rowids joined by
/// commas: equal participant lists give equal strings, and the string lists
/// the participants, so distinct lists give distinct strings.
pub open spec fn spec_members_key_tail(ids: Seq<i32>, j: int) -> Seq<char>
    decreases ids.len() - j,
{
    if j < 0 || j >= ids.len() {
        Seq::empty()
    } else {
        seq![','] + crate::strutil::spec_idec(ids[j] as int) + spec_members_key_tail(ids, j + 1)
    }
}

/// The canonical key of one participant list.
pub open spec fn spec_members_key(ids: Seq<i32>) -> Seq<char> {
    if ids.len() == 0 {
        Seq::empty()
    } else {
        crate::strutil::spec_idec(ids[0] as int) + spec_members_key_tail(ids, 1)
    }
}

/// The chat entries with each participant list replaced by its canonical
/// key.
pub open spec fn chat_pairs_view(s: Seq<(i32, Vec<i32>)>) -> Seq<(i32, Seq<char>)> {
    Seq::new(s.len(), |i: int| (s[i].0, spec_members_key(s[i].1@)))
}

/// Writes the canonical key of one participant list.
fn members_key(ids: &Vec<i32>) -> (r: String)
    ensures
        r@ == spec_members_key(ids@),
{
    let mut out = String::new();
    let mut j: usize = 0;
    while j < ids.len()
        invariant
            j <= ids@.len(),
            j == 0 ==> out@ + spec_members_key(ids@) == spec_members_key(ids@),
            j > 0 ==> out@ + spec_members_key_tail(ids@, j as int) == spec_members_key(ids@),
        decreases ids.len() - j,
    {
        let ghost pre = out@;
        if j > 0 {
            out.append(",");
        }
        out.append(crate::strutil::i64_to_string(ids[j] as i64).as_str());
        proof {
            reveal_strlit(",");
            assert(","@ =~= seq![',']);
            if j == 0 {
                assert(out@ =~= pre + crate::strutil::spec_idec(ids@[0] as int));
            } else {
                assert(out@ =~= pre + (seq![','] + crate::strutil::spec_idec(
                    ids@[j as int] as int,
                )));
            }
            assert(out@ + spec_members_key_tail(ids@, j as int + 1) =~= spec_members_key(ids@));
        }
        j += 1;
    }
    proof {
        if ids@.len() == 0 {
            assert(out@ =~= spec_members_key(ids@));
        } else {
            assert(spec_members_key_tail(ids@, ids@.len() as int) =~= Seq::<char>::empty());
            assert(out@ + Seq::<char>::empty() =~= out@);
        }
    }
    out
}

/// Deduplicates chats that share one participant list, assigning dense
/// identifiers by ascending chat rowid exactly as handle deduplication
/// does.
pub fn dedupe_chats(duplicated_data: &Vec<(i32, Vec<i32>)>) -> (r: Vec<(i32, i32)>)
    requires
        duplicated_data@.len() < 0x8000_0000,
    ensures
        r@ == spec_dedupe(spec_sort_pairs(chat_pairs_view(duplicated_data@))),
{
    let mut keyed: Vec<(i32, String)> = Vec::new();
    let mut i: usize = 0;
    while i < duplicated_data.len()
        invariant
            i <= duplicated_data@.len(),
            keyed@.len() == i,
            pairs_view(keyed@) == chat_pairs_view(duplicated_data@).take(i as int),
        decreases duplicated_data.len() - i,
    {
        let key = members_key(&duplicated_data[i].1);
        keyed.push((duplicated_data[i].0, key));
        proof {
            assert(pairs_view(keyed@) =~= chat_pairs_view(duplicated_data@).take(i as int + 1));
        }
        i += 1;
    }
    proof {
        assert(chat_pairs_view(duplicated_data@).take(duplicated_data@.len() as int)
            =~= chat_pairs_view(duplicated_data@));
    }
    dedupe(&keyed)
}

} // verus!
