use vstd::prelude::*;
use vstd::seq_lib::lemma_seq_contains_after_push;
use vstd::utf8::{encode_utf8, encode_utf8_decode_utf8, encode_utf8_valid_utf8};

use crate::archive::{entry_views, DecodeError, EntryView, SaveArchive};
use crate::codec::{decode_result, encode_result, gssg_marker};
use crate::format::{
    entries_fit, entry_record, entry_records, le32, lemma_le32_value, pad_next, pad_up, parse_payload_spec,
    parse_record, parse_records, payload_bytes, u32_at,
};
use crate::cli::{
    add_flag, decoder_out_dir, decoder_spec, encoder_spec, flags_of, invocation_spec, is_flag_text,
    scan_flags, CliError, Command, DecoderJob, EncoderJob, Invocation,
};
use crate::sorting::{name_key, with_key};
use crate::text::{forward_slashes, lossy_text, trim_trailing_nul};

verus! {

/// Entries that an archive gives back unchanged: they fit the format, there are at
/// most `u32::MAX` of them, and no name ends in a NUL character (the decoder
/// removes those).
pub open spec fn restorable(es: Seq<EntryView>) -> bool {
    &&& entries_fit(es)
    &&& es.len() <= u32::MAX
    &&& forall|i: int| 0 <= i < es.len() ==> #[trigger] trim_trailing_nul(es[i].0) == es[i].0
}

proof fn lemma_record_len(name: Seq<u8>, data: Seq<u8>)
    ensures
        entry_record(name, data).len() == 8 + pad_next(name.len()) + pad_up(data.len()),
{
    lemma_le32_value(name.len());
    lemma_le32_value(data.len());
}

/// A record placed after `x` reads back as its own entry.
#[verifier::rlimit(60)]
proof fn lemma_parse_one_record(x: Seq<u8>, e: EntryView, y: Seq<u8>)
    requires
        encode_utf8(e.0).len() <= 0xffff_fffb,
        e.1.len() <= 0xffff_fffc,
        trim_trailing_nul(e.0) == e.0,
    ensures
        parse_record(x + entry_record(encode_utf8(e.0), e.1) + y, x.len() as int) == Ok::<
            (EntryView, int),
            crate::archive::EntryField,
        >((e, (x.len() + entry_record(encode_utf8(e.0), e.1).len()) as int)),
{
    let nb = encode_utf8(e.0);
    let d = e.1;
    let r = entry_record(nb, d);
    let p = x + r + y;
    let pos = x.len() as int;
    let l = nb.len();
    let dl = d.len();
    lemma_record_len(nb, d);
    lemma_le32_value(l);
    lemma_le32_value(dl);
    assert(p.subrange(pos, pos + 4) =~= le32(l));
    assert(u32_at(p, pos) == l);
    let name_pos = pos + 4;
    assert(p.subrange(name_pos, name_pos + l) =~= nb);
    encode_utf8_valid_utf8(e.0);
    encode_utf8_decode_utf8(e.0);
    assert(lossy_text(nb) == e.0);
    let len_pos = name_pos + pad_next(l);
    assert(p.subrange(len_pos, len_pos + 4) =~= le32(dl));
    assert(u32_at(p, len_pos) == dl);
    let data_pos = len_pos + 4;
    assert(p.subrange(data_pos, data_pos + dl) =~= d);
}

proof fn lemma_records_prefix(es: Seq<EntryView>, k: int)
    requires
        0 <= k <= es.len(),
    ensures
        entry_records(es.take(k)).len() <= entry_records(es).len(),
        entry_records(es).take(entry_records(es.take(k)).len() as int) == entry_records(es.take(k)),
    decreases es.len(),
{
    if k == es.len() {
        assert(es.take(k) == es);
    } else {
        assert(es.drop_last().take(k) == es.take(k));
        lemma_records_prefix(es.drop_last(), k);
    }
}

proof fn lemma_le32_len(n: nat)
    ensures
        le32(n).len() == 4,
{
    lemma_le32_value(n);
}

/// The payload of `es` split around the record of entry `j`.
proof fn lemma_payload_split(es: Seq<EntryView>, j: int)
    requires
        0 <= j < es.len(),
    ensures
        ({
            let x = le32(es.len()) + entry_records(es.take(j));
            let r = entry_record(encode_utf8(es[j].0), es[j].1);
            &&& payload_bytes(es) == x + r + payload_bytes(es).skip((x + r).len() as int)
            &&& entry_records(es.take(j + 1)) == entry_records(es.take(j)) + r
            &&& x.len() == 4 + entry_records(es.take(j)).len()
        }),
{
    let x = le32(es.len()) + entry_records(es.take(j));
    let r = entry_record(encode_utf8(es[j].0), es[j].1);
    let p = payload_bytes(es);
    assert(es.take(j + 1).drop_last() == es.take(j));
    assert(es.take(j + 1).last() == es[j]);
    assert(entry_records(es.take(j + 1)) == entry_records(es.take(j)) + r);
    lemma_records_prefix(es, j + 1);
    lemma_le32_len(es.len());
    let all = entry_records(es);
    let pre = entry_records(es.take(j + 1));
    assert(all.take(pre.len() as int) == pre);
    let m = (x + r).len() as int;
    assert(m == 4 + pre.len());
    assert(p.take(m) =~= x + r) by {
        assert(p == le32(es.len()) + all);
        assert forall|i: int| 0 <= i < m implies p.take(m)[i] == (x + r)[i] by {
            if i >= 4 {
                assert(p[i] == all[i - 4]);
                assert(all[i - 4] == all.take(pre.len() as int)[i - 4]);
            }
        }
    }
    assert(p =~= p.take(m) + p.skip(m));
}

#[verifier::rlimit(60)]
proof fn lemma_parse_records_prefix(es: Seq<EntryView>, k: nat)
    requires
        restorable(es),
        k <= es.len(),
    ensures
        parse_records(payload_bytes(es), k) == Ok::<(Seq<EntryView>, int), DecodeError>(
            (es.take(k as int), (4 + entry_records(es.take(k as int)).len()) as int),
        ),
    decreases k,
{
    let p = payload_bytes(es);
    if k == 0 {
        assert(es.take(0) =~= Seq::<EntryView>::empty());
    } else {
        let j = (k - 1) as int;
        lemma_parse_records_prefix(es, (k - 1) as nat);
        let e = es[j];
        assert(encode_utf8(es[j].0).len() <= 0xffff_fffb);
        assert(trim_trailing_nul(es[j].0) == es[j].0);
        let x = le32(es.len()) + entry_records(es.take(j));
        let r = entry_record(encode_utf8(e.0), e.1);
        lemma_payload_split(es, j);
        lemma_parse_one_record(x, e, p.skip((x + r).len() as int));
        assert(es.take(j).push(e) == es.take(k as int));
    }
}

/// Law: the payload laid out for restorable entries reads back as the same
/// entries, in the same order.
pub proof fn lemma_payload_roundtrip(es: Seq<EntryView>)
    requires
        restorable(es),
    ensures
        parse_payload_spec(payload_bytes(es)) == Ok::<Seq<EntryView>, DecodeError>(es),
{
    let p = payload_bytes(es);
    lemma_le32_value(es.len());
    assert(p.subrange(0, 4) =~= le32(es.len()));
    assert(u32_at(p, 0) == es.len());
    lemma_parse_records_prefix(es, es.len());
    assert(es.take(es.len() as int) == es);
}

/// Law: decoding the bytes that `encode` produced for restorable entries gives
/// those entries back, in order, under the `GSSG` marker.
pub proof fn lemma_archive_roundtrip(es: Seq<EntryView>, out: Vec<u8>)
    requires
        restorable(es),
        encode_result(es, Ok(out)),
    ensures
        forall|res: Result<SaveArchive, DecodeError>|
            decode_result(out@, res) ==> (res matches Ok(a) && a.magic@ == gssg_marker()
                && entry_views(a.entries@) == es),
{
    lemma_payload_roundtrip(es);
    let payload = payload_bytes(es);
    lemma_le32_value(payload.len());
    let c = crate::zlib::zlib_compressed(payload, crate::codec::gssg_level())->0;
    assert(out@.skip(8) =~= c);
    assert(out@.take(4) =~= gssg_marker());
}

proof fn lemma_pads_aligned(n: nat)
    ensures
        pad_next(n) % 4 == 0,
        pad_up(n) % 4 == 0,
{
}

proof fn lemma_records_aligned(es: Seq<EntryView>)
    ensures
        entry_records(es).len() % 4 == 0,
    decreases es.len(),
{
    if es.len() > 0 {
        lemma_records_aligned(es.drop_last());
        let name = encode_utf8(es.last().0);
        let data = es.last().1;
        lemma_record_len(name, data);
        lemma_pads_aligned(name.len());
        lemma_pads_aligned(data.len());
        assert(entry_records(es).len() == entry_records(es.drop_last()).len() + entry_record(
            name,
            data,
        ).len());
    }
}

/// Law: the payload is a whole number of 4-byte words, as every field in it is
/// aligned.
pub proof fn lemma_payload_aligned(es: Seq<EntryView>)
    ensures
        payload_bytes(es).len() % 4 == 0,
{
    lemma_le32_value(es.len());
    lemma_records_aligned(es);
}

} // verus!

verus! {

proof fn lemma_with_key_contains(s: Seq<EntryView>, e: EntryView)
    ensures
        s.contains(e) <==> with_key(s, name_key(e)).contains(e),
    decreases s.len(),
{
    if s.len() > 0 {
        let t = s.drop_last();
        lemma_with_key_contains(t, e);
        assert(s == t.push(s.last()));
        if s.contains(e) && s.last() != e {
            let i = choose|i: int| 0 <= i < s.len() && s[i] == e;
            assert(t[i] == e);
        }
        if t.contains(e) {
            let i = choose|i: int| 0 <= i < t.len() && t[i] == e;
            assert(s[i] == e);
        }
        let w = with_key(t, name_key(e));
        if name_key(s.last()) == name_key(e) {
            assert(with_key(s, name_key(e)) == w.push(s.last()));
            if w.push(s.last()).contains(e) && s.last() != e {
                let i = choose|i: int| 0 <= i < w.push(s.last()).len() && w.push(s.last())[i] == e;
                assert(w[i] == e);
            }
            if w.contains(e) {
                let i = choose|i: int| 0 <= i < w.len() && w[i] == e;
                assert(w.push(s.last())[i] == e);
            }
            assert(w.push(s.last())[w.len() as int] == s.last());
        }
    }
}

/// Law: ordering the entries found in a directory neither loses nor invents an
/// entry: an entry is in the ordered list exactly when it was found.
pub proof fn lemma_sorted_same_entries(found: Seq<EntryView>, sorted: Seq<EntryView>)
    requires
        forall|k: Seq<u8>| #[trigger] with_key(sorted, k) == with_key(found, k),
    ensures
        forall|e: EntryView| sorted.contains(e) <==> found.contains(e),
{
    assert forall|e: EntryView| sorted.contains(e) <==> found.contains(e) by {
        lemma_with_key_contains(sorted, e);
        lemma_with_key_contains(found, e);
        assert(with_key(sorted, name_key(e)) == with_key(found, name_key(e)));
    }
}

proof fn lemma_scan_keeps_keys(args: Seq<Seq<char>>, j: int, m: Map<Seq<char>, Seq<Seq<char>>>, k: Seq<char>)
    requires
        m.dom().contains(k),
    ensures
        scan_flags(args, j, m).dom().contains(k),
    decreases args.len() - j,
{
    if 0 <= j < args.len() {
        if is_flag_text(args[j]) {
            if j + 1 < args.len() && !is_flag_text(args[j + 1]) {
                lemma_scan_keeps_keys(args, j + 2, add_flag(m, args[j], Some(args[j + 1])), k);
            } else {
                lemma_scan_keeps_keys(args, j + 1, add_flag(m, args[j], None), k);
            }
        } else {
            lemma_scan_keeps_keys(args, j + 1, m, k);
        }
    }
}

proof fn lemma_scan_records_flags(args: Seq<Seq<char>>, j: int, m: Map<Seq<char>, Seq<Seq<char>>>, i: int)
    requires
        0 <= j <= i < args.len(),
        is_flag_text(args[i]),
    ensures
        scan_flags(args, j, m).dom().contains(args[i]),
    decreases args.len() - j,
{
    if is_flag_text(args[j]) {
        if j + 1 < args.len() && !is_flag_text(args[j + 1]) {
            let m2 = add_flag(m, args[j], Some(args[j + 1]));
            if i == j {
                lemma_scan_keeps_keys(args, j + 2, m2, args[i]);
            } else {
                lemma_scan_records_flags(args, j + 2, m2, i);
            }
        } else {
            let m2 = add_flag(m, args[j], None);
            if i == j {
                lemma_scan_keeps_keys(args, j + 1, m2, args[i]);
            } else {
                lemma_scan_records_flags(args, j + 1, m2, i);
            }
        }
    } else {
        lemma_scan_records_flags(args, j + 1, m, i);
    }
}

/// Law: every argument written as a flag is recorded as one, so `has_flag` finds
/// any flag that was given, whatever stands around it.
pub proof fn lemma_every_flag_recorded(args: Seq<Seq<char>>, i: int)
    requires
        0 <= i < args.len(),
        is_flag_text(args[i]),
    ensures
        flags_of(args).dom().contains(args[i]),
{
    lemma_scan_records_flags(args, 0, Map::empty(), i);
}

/// The values given to flag `k` in `args`: each argument that does not start with
/// `-` and stands right after an argument that is `k` and starts with `-`, in order.
pub open spec fn flag_values(args: Seq<Seq<char>>, k: Seq<char>) -> Seq<Seq<char>>
    decreases args.len(),
{
    if args.len() < 2 {
        seq![]
    } else {
        let n = args.len() as int;
        let rest = flag_values(args.drop_last(), k);
        if is_flag_text(args[n - 2]) && args[n - 2] == k && !is_flag_text(args[n - 1]) {
            rest.push(args[n - 1])
        } else {
            rest
        }
    }
}

/// The flags that `args` state: the flags are the arguments that start with `-`,
/// each with its `flag_values`.
pub open spec fn stated_flags(args: Seq<Seq<char>>) -> Map<Seq<char>, Seq<Seq<char>>> {
    Map::new(|k: Seq<char>| is_flag_text(k) && args.contains(k), |k: Seq<char>| flag_values(args, k))
}

proof fn lemma_flag_values_key(args: Seq<Seq<char>>, k: Seq<char>)
    ensures
        flag_values(args, k).len() > 0 ==> is_flag_text(k) && args.contains(k),
    decreases args.len(),
{
    if args.len() >= 2 {
        let t = args.drop_last();
        lemma_flag_values_key(t, k);
        let n = args.len() as int;
        if t.contains(k) {
            let i = choose|i: int| 0 <= i < t.len() && t[i] == k;
            assert(args[i] == k);
        }
        if is_flag_text(args[n - 2]) && args[n - 2] == k {
            assert(args.contains(k));
        }
    }
}

/// `flag_values` of one more argument.
proof fn lemma_flag_values_step(args: Seq<Seq<char>>, j: int, k: Seq<char>)
    requires
        0 <= j < args.len(),
    ensures
        flag_values(args.take(j + 1), k) == if j >= 1 && is_flag_text(args[j - 1]) && args[j - 1]
            == k && !is_flag_text(args[j]) {
            flag_values(args.take(j), k).push(args[j])
        } else {
            flag_values(args.take(j), k)
        },
{
    let t = args.take(j + 1);
    assert(t.drop_last() == args.take(j));
    if j >= 1 {
        assert(t[j - 1] == args[j - 1]);
        assert(t[j] == args[j]);
    } else {
        assert(args.take(0).len() == 0);
    }
}

/// Whether the flag reader stops at `j` rather than taking it as a value.
spec fn stops_at(args: Seq<Seq<char>>, j: int) -> bool {
    j == 0 || j >= args.len() || !is_flag_text(args[j - 1]) || is_flag_text(args[j])
}

/// Reading one argument that is a flag, with or without the value after it.
proof fn lemma_stated_flag(args: Seq<Seq<char>>, j: int, with_value: bool)
    requires
        0 <= j < args.len(),
        is_flag_text(args[j]),
        with_value ==> j + 1 < args.len() && !is_flag_text(args[j + 1]),
    ensures
        with_value ==> stated_flags(args.take(j + 2)) == add_flag(
            stated_flags(args.take(j)),
            args[j],
            Some(args[j + 1]),
        ),
        !with_value ==> stated_flags(args.take(j + 1)) == add_flag(
            stated_flags(args.take(j)),
            args[j],
            None,
        ),
{
    let key = args[j];
    let m = stated_flags(args.take(j));
    lemma_flag_values_key(args.take(j), key);
    assert(args.take(j + 1) == args.take(j).push(key));
    if with_value {
        let v = args[j + 1];
        assert(args.take(j + 2) == args.take(j + 1).push(v));
        let m2 = stated_flags(args.take(j + 2));
        let r = add_flag(m, key, Some(v));
        assert forall|k: Seq<char>| #[trigger] m2.dom().contains(k) <==> r.dom().contains(k) by {
            lemma_seq_contains_after_push(args.take(j + 1), v, k);
            lemma_seq_contains_after_push(args.take(j), key, k);
        }
        assert forall|k: Seq<char>| #[trigger] m2.dom().contains(k) implies m2[k] == r[k] by {
            lemma_flag_values_step(args, j, k);
            lemma_flag_values_step(args, j + 1, k);
            lemma_flag_values_key(args.take(j), k);
        }
        assert(m2 =~= r);
    } else {
        let m1 = stated_flags(args.take(j + 1));
        let r = add_flag(m, key, None);
        assert forall|k: Seq<char>| #[trigger] m1.dom().contains(k) <==> r.dom().contains(k) by {
            lemma_seq_contains_after_push(args.take(j), key, k);
        }
        assert forall|k: Seq<char>| #[trigger] m1.dom().contains(k) implies m1[k] == r[k] by {
            lemma_flag_values_step(args, j, k);
            lemma_flag_values_key(args.take(j), k);
        }
        assert(m1 =~= r);
    }
}

/// Reading an argument that is no flag and no value changes nothing.
proof fn lemma_stated_other(args: Seq<Seq<char>>, j: int)
    requires
        0 <= j < args.len(),
        !is_flag_text(args[j]),
        stops_at(args, j),
    ensures
        stated_flags(args.take(j + 1)) == stated_flags(args.take(j)),
{
    let m = stated_flags(args.take(j));
    let m1 = stated_flags(args.take(j + 1));
    assert(args.take(j + 1) == args.take(j).push(args[j]));
    assert forall|k: Seq<char>| #[trigger] m1.dom().contains(k) <==> m.dom().contains(k) by {
        lemma_seq_contains_after_push(args.take(j), args[j], k);
    }
    assert forall|k: Seq<char>| #[trigger] m1.dom().contains(k) implies m1[k] == m[k] by {
        lemma_flag_values_step(args, j, k);
    }
    assert(m1 =~= m);
}

proof fn lemma_scan_as_stated(args: Seq<Seq<char>>, j: int)
    requires
        0 <= j <= args.len(),
        stops_at(args, j),
    ensures
        scan_flags(args, j, stated_flags(args.take(j))) == stated_flags(args),
    decreases args.len() - j,
{
    if j == args.len() {
        assert(args.take(j) == args);
    } else if is_flag_text(args[j]) {
        if j + 1 < args.len() && !is_flag_text(args[j + 1]) {
            lemma_stated_flag(args, j, true);
            lemma_scan_as_stated(args, j + 2);
        } else {
            lemma_stated_flag(args, j, false);
            lemma_scan_as_stated(args, j + 1);
        }
    } else {
        lemma_stated_other(args, j);
        lemma_scan_as_stated(args, j + 1);
    }
}

/// Law: the flags read from `args` are exactly the arguments that start with `-`,
/// and the values of each are the arguments right after it that do not start with
/// `-`, in the order given.
pub proof fn lemma_flags_as_stated(args: Seq<Seq<char>>)
    ensures
        flags_of(args) == stated_flags(args),
{
    assert(stated_flags(args.take(0)) =~= Map::<Seq<char>, Seq<Seq<char>>>::empty());
    lemma_scan_as_stated(args, 0);
}

proof fn lemma_flag_values_contains(args: Seq<Seq<char>>, k: Seq<char>, v: Seq<char>)
    ensures
        flag_values(args, k).contains(v) <==> exists|i: int|
            0 <= i && i + 1 < args.len() && #[trigger] args[i] == k && is_flag_text(args[i])
                && args[i + 1] == v && !is_flag_text(args[i + 1]),
    decreases args.len(),
{
    if args.len() >= 2 {
        let t = args.drop_last();
        let n = args.len() as int;
        lemma_flag_values_contains(t, k, v);
        let rest = flag_values(t, k);
        if is_flag_text(args[n - 2]) && args[n - 2] == k && !is_flag_text(args[n - 1]) {
            lemma_seq_contains_after_push(rest, args[n - 1], v);
        }
        if exists|i: int|
            0 <= i && i + 1 < t.len() && #[trigger] t[i] == k && is_flag_text(t[i]) && t[i + 1] == v
                && !is_flag_text(t[i + 1]) {
            let i = choose|i: int|
                0 <= i && i + 1 < t.len() && #[trigger] t[i] == k && is_flag_text(t[i]) && t[i + 1]
                    == v && !is_flag_text(t[i + 1]);
            assert(args[i] == t[i] && args[i + 1] == t[i + 1]);
        }
        if exists|i: int|
            0 <= i && i + 1 < args.len() && #[trigger] args[i] == k && is_flag_text(args[i])
                && args[i + 1] == v && !is_flag_text(args[i + 1]) {
            let i = choose|i: int|
                0 <= i && i + 1 < args.len() && #[trigger] args[i] == k && is_flag_text(args[i])
                    && args[i + 1] == v && !is_flag_text(args[i + 1]);
            if i + 1 < t.len() {
                assert(t[i] == args[i] && t[i + 1] == args[i + 1]);
            }
        }
    }
}

/// Law: an argument is a flag exactly when its first character is `-`. The flags
/// read from `args` are the arguments that start with `-`; an argument that does
/// not start with `-` and comes right after a flag is one of that flag's values;
/// and every value of a flag is such an argument.
pub proof fn lemma_flags_from_dashes(args: Seq<Seq<char>>)
    ensures
        forall|k: Seq<char>|
            #[trigger] flags_of(args).dom().contains(k) <==> (k.len() > 0 && k[0] == '-'
                && args.contains(k)),
        forall|i: int|
            0 <= i && i + 1 < args.len() && args[i].len() > 0 && args[i][0] == '-' && !(args[i
                + 1].len() > 0 && args[i + 1][0] == '-') ==> #[trigger] flags_of(args)[args[i]].contains(
                args[i + 1],
            ),
        forall|k: Seq<char>, v: Seq<char>|
            flags_of(args).dom().contains(k) && #[trigger] flags_of(args)[k].contains(v) ==> exists|
                i: int,
            |
                0 <= i && i + 1 < args.len() && #[trigger] args[i] == k && args[i + 1] == v && !(
                v.len() > 0 && v[0] == '-'),
{
    lemma_flags_as_stated(args);
    let m = flags_of(args);
    assert forall|i: int|
        0 <= i && i + 1 < args.len() && args[i].len() > 0 && args[i][0] == '-' && !(args[i
            + 1].len() > 0 && args[i + 1][0] == '-') implies #[trigger] m[args[i]].contains(
        args[i + 1],
    ) by {
        assert(args.contains(args[i]));
        lemma_flag_values_contains(args, args[i], args[i + 1]);
    }
    assert forall|k: Seq<char>, v: Seq<char>|
        m.dom().contains(k) && #[trigger] m[k].contains(v) implies exists|i: int|
            0 <= i && i + 1 < args.len() && #[trigger] args[i] == k && args[i + 1] == v && !(
            v.len() > 0 && v[0] == '-') by {
        lemma_flag_values_contains(args, k, v);
    }
}

/// Law: the encoder reads a directory, or the directories of a batch, recursively
/// exactly when `-r` or `--recursive` was given.
pub proof fn lemma_encoder_recursion(m: Map<Seq<char>, Seq<Seq<char>>>, res: Result<EncoderJob, CliError>)
    requires
        encoder_spec(m, res),
    ensures
        res matches Ok(EncoderJob::Dir { recursive: r, .. }) ==> r == (m.dom().contains("-r"@)
            || m.dom().contains("--recursive"@)),
        res matches Ok(EncoderJob::Batch { recursive: r, .. }) ==> r == (m.dom().contains("-r"@)
            || m.dom().contains("--recursive"@)),
{
}

/// Law: every decoder job extracts into the first value of `-d` when that flag
/// was given with a value, else into the first value of `--dir` when only that
/// was given with a value, and into `.` otherwise.
pub proof fn lemma_decoder_out_dir(m: Map<Seq<char>, Seq<Seq<char>>>, res: Result<DecoderJob, CliError>)
    requires
        decoder_spec(m, res),
        res is Ok,
    ensures
        decoder_out_dir(res->Ok_0)@ == (if m.dom().contains("-d"@) && m["-d"@].len() > 0 {
            m["-d"@][0]
        } else if !m.dom().contains("-d"@) && m.dom().contains("--dir"@) && m["--dir"@].len() > 0 {
            m["--dir"@][0]
        } else {
            "."@
        }),
{
}

/// Law: the second argument picks the subcommand. `encoder` and `decoder`, with
/// no `-h`/`--help` after them, run that subcommand with the flags of the rest of
/// the line; a subcommand is reported unknown only when its text is none of
/// `-h`, `--help`, `help`, `-v`, `--version`, `encoder`, `decoder`.
pub proof fn lemma_invocation_dispatch(a: Seq<Seq<char>>, res: Invocation)
    requires
        invocation_spec(a, res),
    ensures
        a.len() >= 2 && a[1] == "encoder"@ && !flags_of(a.skip(2)).dom().contains("-h"@)
            && !flags_of(a.skip(2)).dom().contains("--help"@) ==> (res matches Invocation::Run(c, f)
            && c == Command::Encoder && f@ == flags_of(a.skip(2))),
        a.len() >= 2 && a[1] == "decoder"@ && !flags_of(a.skip(2)).dom().contains("-h"@)
            && !flags_of(a.skip(2)).dom().contains("--help"@) ==> (res matches Invocation::Run(c, f)
            && c == Command::Decoder && f@ == flags_of(a.skip(2))),
        res matches Invocation::UnknownCommand(c) ==> {
            &&& a.len() >= 2
            &&& c@ == a[1]
            &&& a[1] != "-h"@ && a[1] != "--help"@ && a[1] != "help"@
            &&& a[1] != "-v"@ && a[1] != "--version"@
            &&& a[1] != "encoder"@ && a[1] != "decoder"@
        },
{
    reveal_strlit("encoder");
    reveal_strlit("decoder");
    reveal_strlit("-h");
    reveal_strlit("--help");
    reveal_strlit("help");
    reveal_strlit("-v");
    reveal_strlit("--version");
    assert("encoder"@[0] != "decoder"@[0]);
}

/// Law: an entry name has the length of the relative path it comes from, holds
/// `/` wherever the path holds a backslash, and keeps every other character.
pub proof fn lemma_entry_name_chars(path: Seq<char>)
    ensures
        forward_slashes(path).len() == path.len(),
        forall|i: int|
            0 <= i < path.len() ==> #[trigger] forward_slashes(path)[i] == if path[i] == '\\' {
                '/'
            } else {
                path[i]
            },
{
}

} // verus!
