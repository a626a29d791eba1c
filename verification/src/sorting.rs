use vstd::prelude::*;
use vstd::utf8::encode_utf8;

use crate::archive::{entry_views, EntryView, SaveEntry};

verus! {

/// The key by which entries are ordered: the UTF-8 bytes of the name, which is
/// the order `String` compares by.
pub open spec fn name_key(e: EntryView) -> Seq<u8> {
    encode_utf8(e.0)
}

/// Lexicographic order on byte strings, a proper prefix coming first.
pub open spec fn bytes_lt(a: Seq<u8>, b: Seq<u8>) -> bool
    decreases a.len(),
{
    if a.len() == 0 {
        b.len() > 0
    } else if b.len() == 0 {
        false
    } else if a[0] != b[0] {
        a[0] < b[0]
    } else {
        bytes_lt(a.drop_first(), b.drop_first())
    }
}

/// No entry of `s` has a name that orders before the name of an earlier entry.
pub open spec fn sorted_by_name(s: Seq<EntryView>) -> bool {
    forall|i: int, j: int|
        0 <= i < j < s.len() ==> !bytes_lt(name_key(#[trigger] s[j]), name_key(#[trigger] s[i]))
}

/// The entries of `s` whose name key is `k`, in their order in `s`.
pub open spec fn with_key(s: Seq<EntryView>, k: Seq<u8>) -> Seq<EntryView>
    decreases s.len(),
{
    if s.len() == 0 {
        seq![]
    } else if name_key(s.last()) == k {
        with_key(s.drop_last(), k).push(s.last())
    } else {
        with_key(s.drop_last(), k)
    }
}

proof fn lemma_lt_irreflexive(a: Seq<u8>)
    ensures
        !bytes_lt(a, a),
    decreases a.len(),
{
    if a.len() > 0 {
        lemma_lt_irreflexive(a.drop_first());
    }
}

proof fn lemma_lt_total(a: Seq<u8>, b: Seq<u8>)
    ensures
        bytes_lt(a, b) || bytes_lt(b, a) || a == b,
    decreases a.len(),
{
    if a.len() > 0 && b.len() > 0 && a[0] == b[0] {
        lemma_lt_total(a.drop_first(), b.drop_first());
        if a.drop_first() == b.drop_first() {
            assert(a =~= seq![a[0]] + a.drop_first());
            assert(b =~= seq![b[0]] + b.drop_first());
        }
    }
}

proof fn lemma_lt_transitive(a: Seq<u8>, b: Seq<u8>, c: Seq<u8>)
    requires
        bytes_lt(a, b),
        bytes_lt(b, c),
    ensures
        bytes_lt(a, c),
    decreases a.len(),
{
    if a.len() > 0 && b.len() > 0 && c.len() > 0 && a[0] == b[0] && b[0] == c[0] {
        lemma_lt_transitive(a.drop_first(), b.drop_first(), c.drop_first());
    }
}

/// `a < b` and `b <= c` give `a < c`.
proof fn lemma_lt_le(a: Seq<u8>, b: Seq<u8>, c: Seq<u8>)
    requires
        bytes_lt(a, b),
        !bytes_lt(c, b),
    ensures
        bytes_lt(a, c),
{
    lemma_lt_total(b, c);
    if bytes_lt(b, c) {
        lemma_lt_transitive(a, b, c);
    }
}

proof fn lemma_with_key_concat(s: Seq<EntryView>, t: Seq<EntryView>, k: Seq<u8>)
    ensures
        with_key(s + t, k) == with_key(s, k) + with_key(t, k),
    decreases t.len(),
{
    if t.len() == 0 {
        assert(s + t == s);
        assert(with_key(s, k) + with_key(t, k) == with_key(s, k));
    } else {
        assert((s + t).drop_last() == s + t.drop_last());
        assert((s + t).last() == t.last());
        lemma_with_key_concat(s, t.drop_last(), k);
    }
}

proof fn lemma_with_key_none(s: Seq<EntryView>, k: Seq<u8>)
    requires
        forall|i: int| 0 <= i < s.len() ==> name_key(#[trigger] s[i]) != k,
    ensures
        with_key(s, k) == Seq::<EntryView>::empty(),
    decreases s.len(),
{
    if s.len() > 0 {
        assert(name_key(s[s.len() - 1]) != k);
        lemma_with_key_none(s.drop_last(), k);
    }
}

/// Inserting `e` at `j`, after every entry that does not order after it and
/// before every entry that does, adds `e` at the end of its own key's run.
proof fn lemma_insert_keeps_runs(s: Seq<EntryView>, j: int, e: EntryView, k: Seq<u8>)
    requires
        0 <= j <= s.len(),
        forall|m: int| j <= m < s.len() ==> bytes_lt(name_key(e), name_key(#[trigger] s[m])),
    ensures
        with_key(s.insert(j, e), k) == if name_key(e) == k {
            with_key(s, k).push(e)
        } else {
            with_key(s, k)
        },
{
    let a = s.take(j);
    let b = s.skip(j);
    assert(s =~= a + b);
    assert(s.insert(j, e) =~= a + seq![e] + b);
    lemma_with_key_concat(a + seq![e], b, k);
    lemma_with_key_concat(a, seq![e], k);
    lemma_with_key_concat(a, b, k);
    let one = seq![e];
    assert(one.drop_last() =~= Seq::<EntryView>::empty());
    assert(one.last() == e);
    assert(with_key(Seq::<EntryView>::empty(), k) == Seq::<EntryView>::empty());
    if name_key(e) == k {
        assert(with_key(one, k) =~= seq![e]);
        assert forall|i: int| 0 <= i < b.len() implies name_key(#[trigger] b[i]) != k by {
            assert(b[i] == s[j + i]);
            lemma_lt_irreflexive(k);
        }
        lemma_with_key_none(b, k);
        assert(with_key(s, k) =~= with_key(a, k));
        assert(with_key(s.insert(j, e), k) =~= with_key(a, k).push(e));
    } else {
        assert(with_key(one, k) =~= Seq::<EntryView>::empty());
        assert(with_key(s.insert(j, e), k) =~= with_key(a, k) + with_key(b, k));
    }
}

/// Whether byte string `a` orders before `b`.
fn bytes_less(a: &[u8], b: &[u8]) -> (r: bool)
    ensures
        r == bytes_lt(a@, b@),
{
    let mut i: usize = 0;
    assert(a@.skip(0) == a@);
    assert(b@.skip(0) == b@);
    while i < a.len() && i < b.len() && a[i] == b[i]
        invariant
            i <= a@.len(),
            i <= b@.len(),
            bytes_lt(a@, b@) == bytes_lt(a@.skip(i as int), b@.skip(i as int)),
        decreases a@.len() - i,
    {
        assert(a@.skip(i as int).drop_first() == a@.skip(i + 1));
        assert(b@.skip(i as int).drop_first() == b@.skip(i + 1));
        i = i + 1;
    }
    if i == a.len() {
        i < b.len()
    } else if i == b.len() {
        false
    } else {
        a[i] < b[i]
    }
}

/// Puts the entries found in a directory in archive order: by name, as `String`
/// orders names, keeping entries with equal names in the order they were found.
pub fn collect_entries_from_dir(found: Vec<SaveEntry>) -> (sorted: Vec<SaveEntry>)
    ensures
        sorted@.len() == found@.len(),
        sorted_by_name(entry_views(sorted@)),
        forall|k: Seq<u8>|
            #[trigger] with_key(entry_views(sorted@), k) == with_key(entry_views(found@), k),
{
    let ghost all = entry_views(found@);
    let total = found.len();
    let mut rest = found;
    let mut out: Vec<SaveEntry> = Vec::new();
    let mut taken: usize = 0;
    assert(all.take(0) =~= entry_views(out@));
    while rest.len() > 0
        invariant
            all.len() == taken + rest@.len(),
            all.len() == total,
            entry_views(rest@) == all.skip(taken as int),
            out@.len() == taken,
            sorted_by_name(entry_views(out@)),
            forall|k: Seq<u8>|
                #[trigger] with_key(entry_views(out@), k) == with_key(all.take(taken as int), k),
        decreases rest@.len(),
    {
        let ghost before = entry_views(out@);
        let ghost old_rest = rest@;
        let e = rest.remove(0);
        proof {
            assert(entry_views(old_rest)[0] == old_rest[0]@);
            assert(all.skip(taken as int)[0] == all[taken as int]);
            assert(e@ == all[taken as int]);
            assert forall|i: int| 0 <= i < rest@.len() implies entry_views(rest@)[i] == all.skip(
                taken + 1,
            )[i] by {
                assert(rest@[i] == old_rest[i + 1]);
                assert(entry_views(old_rest)[i + 1] == all.skip(taken as int)[i + 1]);
            }
            assert(entry_views(rest@) =~= all.skip(taken + 1));
        }
        let key = e.name.as_str().as_bytes();
        let mut j: usize = 0;
        while j < out.len() && !bytes_less(key, out[j].name.as_str().as_bytes())
            invariant
                j <= out@.len(),
                key@ == name_key(e@),
                before == entry_views(out@),
                forall|m: int| 0 <= m < j ==> !bytes_lt(name_key(e@), name_key(#[trigger] before[m])),
            decreases out@.len() - j,
        {
            j = j + 1;
        }
        proof {
            if j < before.len() {
                assert(bytes_lt(name_key(e@), name_key(before[j as int])));
                assert forall|m: int| j <= m < before.len() implies bytes_lt(
                    name_key(e@),
                    name_key(#[trigger] before[m]),
                ) by {
                    if m > j {
                        lemma_lt_le(name_key(e@), name_key(before[j as int]), name_key(before[m]));
                    }
                }
            }
        }
        out.insert(j, e);
        proof {
            let now = entry_views(out@);
            assert(now =~= before.insert(j as int, e@));
            assert(all.take(taken + 1) =~= all.take(taken as int).push(e@));
            assert forall|k: Seq<u8>| #[trigger]
                with_key(now, k) == with_key(all.take(taken + 1), k) by {
                lemma_insert_keeps_runs(before, j as int, e@, k);
                assert(all.take(taken + 1).drop_last() == all.take(taken as int));
            }
            assert forall|p: int, q: int| 0 <= p < q < now.len() implies !bytes_lt(
                name_key(#[trigger] now[q]),
                name_key(#[trigger] now[p]),
            ) by {
                if p == j {
                    let x = name_key(before[q - 1]);
                    assert(now[q] == before[q - 1]);
                    assert(bytes_lt(name_key(e@), x));
                    if bytes_lt(x, name_key(e@)) {
                        lemma_lt_transitive(x, name_key(e@), x);
                        lemma_lt_irreflexive(x);
                    }
                } else if q == j {
                    assert(now[p] == before[p]);
                }
            }
        }
        taken = taken + 1;
    }
    assert(all.take(all.len() as int) == all);
    out
}

} // verus!
