//! The durable text format for the registry, with a proved round trip.
//!
//! A document is the entry count in twenty digits and `;`, then each entry:
//! three length-prefixed string fields (twenty digits, `:`, the characters),
//! the visit count in ten digits and `;`, the visit time (`n;` when absent,
//! `t`, twenty digits of the `u64` bit pattern, `;` when present), and a
//! final newline. Fixed-width numbers keep parsing unambiguous.
use vstd::prelude::*;

use crate::digits::{
    digits_string, digits_value, lemma_digits_value_of_spec_digits, lemma_pow10_values,
    lemma_spec_digits_len, parse_fixed_num, pow10, spec_digits, spec_fixed_val,
};
use crate::entry::{seq_view, EntryModel, UrlEntry};

verus! {

/// A string field: its length in twenty digits, `:`, the characters.
pub open spec fn encode_str_field(f: Seq<char>) -> Seq<char> {
    spec_digits(f.len(), 20) + seq![':'] + f
}

/// The visit time: `n;` when absent, `t`, twenty digits, `;` when present.
pub open spec fn encode_timestamp(o: Option<i64>) -> Seq<char> {
    match o {
        Option::None => seq!['n', ';'],
        Option::Some(t) => seq!['t'] + spec_digits((t as u64) as nat, 20) + seq![';'],
    }
}

pub open spec fn encode_entry(e: EntryModel) -> Seq<char> {
    encode_str_field(e.short_code) + encode_str_field(e.long_url) + encode_str_field(e.note)
        + spec_digits(e.visit_count as nat, 10) + seq![';'] + encode_timestamp(e.last_visit)
        + seq!['\n']
}

pub open spec fn encode_entries(es: Seq<EntryModel>) -> Seq<char>
    decreases es.len(),
{
    if es.len() == 0 {
        Seq::empty()
    } else {
        encode_entry(es[0]) + encode_entries(es.drop_first())
    }
}

/// The whole document: the entry count in twenty digits, `;`, the entries.
pub open spec fn encode_document(es: Seq<EntryModel>) -> Seq<char> {
    spec_digits(es.len(), 20) + seq![';'] + encode_entries(es)
}

/// The field lengths a machine can hold; every value actually in memory
/// satisfies these, and the encoding is lossless only under them.
pub open spec fn bounded_model(e: EntryModel) -> bool {
    &&& e.short_code.len() <= u64::MAX
    &&& e.long_url.len() <= u64::MAX
    &&& e.note.len() <= u64::MAX
}

pub open spec fn bounded_models(es: Seq<EntryModel>) -> bool {
    &&& es.len() <= u64::MAX
    &&& forall|i: int| 0 <= i < es.len() ==> bounded_model(#[trigger] es[i])
}

/// Decodes a string field at `pos`: the field and the position after it.
pub open spec fn decode_str_field(s: Seq<char>, pos: int) -> Option<(Seq<char>, int)> {
    if 0 <= pos && pos + 21 <= s.len() {
        match spec_fixed_val(s, pos, 20) {
            Option::Some(l) => {
                if s[pos + 20] == ':' && pos + 21 + l <= s.len() {
                    Option::Some((s.subrange(pos + 21, pos + 21 + l), pos + 21 + l))
                } else {
                    Option::None
                }
            },
            Option::None => Option::None,
        }
    } else {
        Option::None
    }
}

pub open spec fn decode_timestamp(s: Seq<char>, pos: int) -> Option<(Option<i64>, int)> {
    if 0 <= pos && pos + 2 <= s.len() && s[pos] == 'n' && s[pos + 1] == ';' {
        Option::Some((Option::None, pos + 2))
    } else if 0 <= pos && pos + 22 <= s.len() && s[pos] == 't' && s[pos + 21] == ';' {
        match spec_fixed_val(s, pos + 1, 20) {
            Option::Some(v) => Option::Some((Option::Some(v as i64), pos + 22)),
            Option::None => Option::None,
        }
    } else {
        Option::None
    }
}

pub open spec fn decode_count(s: Seq<char>, pos: int) -> Option<(u32, int)> {
    if 0 <= pos && pos + 11 <= s.len() && s[pos + 10] == ';' {
        match spec_fixed_val(s, pos, 10) {
            Option::Some(v) => if v <= u32::MAX {
                Option::Some((v as u32, pos + 11))
            } else {
                Option::None
            },
            Option::None => Option::None,
        }
    } else {
        Option::None
    }
}

pub open spec fn decode_entry(s: Seq<char>, pos: int) -> Option<(EntryModel, int)> {
    match decode_str_field(s, pos) {
        Option::Some((code, p1)) => match decode_str_field(s, p1) {
            Option::Some((long_url, p2)) => match decode_str_field(s, p2) {
                Option::Some((note, p3)) => match decode_count(s, p3) {
                    Option::Some((vc, p4)) => match decode_timestamp(s, p4) {
                        Option::Some((lv, p5)) => if p5 + 1 <= s.len() && s[p5] == '\n' {
                            Option::Some(
                                (
                                    EntryModel {
                                        short_code: code,
                                        long_url: long_url,
                                        note: note,
                                        visit_count: vc,
                                        last_visit: lv,
                                    },
                                    p5 + 1,
                                ),
                            )
                        } else {
                            Option::None
                        },
                        Option::None => Option::None,
                    },
                    Option::None => Option::None,
                },
                Option::None => Option::None,
            },
            Option::None => Option::None,
        },
        Option::None => Option::None,
    }
}

pub open spec fn decode_entries(s: Seq<char>, pos: int, count: nat) -> Option<
    (Seq<EntryModel>, int),
>
    decreases count,
{
    if count == 0 {
        Option::Some((Seq::empty(), pos))
    } else {
        match decode_entry(s, pos) {
            Option::Some((e, p)) => match decode_entries(s, p, (count - 1) as nat) {
                Option::Some((es, p2)) => Option::Some((seq![e] + es, p2)),
                Option::None => Option::None,
            },
            Option::None => Option::None,
        }
    }
}

/// Decodes a whole document; every malformed document decodes to `None`.
pub open spec fn decode_document(s: Seq<char>) -> Option<Seq<EntryModel>> {
    if 21 <= s.len() && s[20] == ';' {
        match spec_fixed_val(s, 0, 20) {
            Option::Some(cnt) => match decode_entries(s, 21, cnt as nat) {
                Option::Some((es, p)) => if p == s.len() {
                    Option::Some(es)
                } else {
                    Option::None
                },
                Option::None => Option::None,
            },
            Option::None => Option::None,
        }
    } else {
        Option::None
    }
}

/// Within a matching subrange, every index of `s` equals the encoding.
proof fn lemma_subrange_indexes(s: Seq<char>, pos: int, enc: Seq<char>)
    requires
        0 <= pos,
        pos + enc.len() <= s.len(),
        s.subrange(pos, pos + enc.len() as int) == enc,
    ensures
        forall|j: int| pos <= j < pos + enc.len() ==> #[trigger] s[j] == enc[j - pos],
{
    assert forall|j: int| pos <= j < pos + enc.len() implies #[trigger] s[j] == enc[j - pos] by {
        assert(s.subrange(pos, pos + enc.len() as int)[j - pos] == enc[j - pos]);
    }
}

/// A fixed-width number reads back as itself wherever its digits stand.
proof fn lemma_fixed_val_at(s: Seq<char>, pos: int, n: nat, k: nat)
    requires
        0 <= pos,
        pos + k <= s.len(),
        s.subrange(pos, pos + k) == spec_digits(n, k),
        n < pow10(k),
        n <= u64::MAX,
    ensures
        spec_fixed_val(s, pos, k as int) == Option::Some(n as u64),
{
    lemma_spec_digits_len(n, k);
    lemma_digits_value_of_spec_digits(n, k);
}

/// A string field reads back as itself wherever its encoding stands.
proof fn lemma_decode_str_field_at(s: Seq<char>, pos: int, f: Seq<char>)
    requires
        0 <= pos,
        f.len() <= u64::MAX,
        pos + 21 + f.len() <= s.len(),
        s.subrange(pos, pos + 21 + f.len()) == encode_str_field(f),
    ensures
        decode_str_field(s, pos) == Option::Some((f, pos + 21 + f.len())),
{
    lemma_pow10_values();
    lemma_spec_digits_len(f.len(), 20);
    let enc = encode_str_field(f);
    assert(s.subrange(pos, pos + 20) =~= spec_digits(f.len(), 20)) by {
        assert(forall|i: int|
            0 <= i < 20 ==> s.subrange(pos, pos + 20)[i] == #[trigger] enc[i]);
    }
    lemma_fixed_val_at(s, pos, f.len(), 20);
    assert(s[pos + 20] == enc[20]);
    assert(enc[20] == ':');
    assert(s.subrange(pos + 21, pos + 21 + f.len()) =~= f) by {
        assert(forall|i: int| 0 <= i < f.len() ==> #[trigger] f[i] == enc[21 + i]);
    }
}

/// A visit time reads back as itself wherever its encoding stands.
proof fn lemma_decode_timestamp_at(s: Seq<char>, pos: int, o: Option<i64>)
    requires
        0 <= pos,
        pos + encode_timestamp(o).len() <= s.len(),
        s.subrange(pos, pos + encode_timestamp(o).len()) == encode_timestamp(o),
    ensures
        decode_timestamp(s, pos) == Option::Some((o, pos + encode_timestamp(o).len())),
{
    lemma_pow10_values();
    let enc = encode_timestamp(o);
    match o {
        Option::None => {
            assert(enc.len() == 2);
            assert(s[pos] == enc[0]);
            assert(s[pos + 1] == enc[1]);
        },
        Option::Some(t) => {
            let u = t as u64;
            lemma_spec_digits_len(u as nat, 20);
            assert(enc.len() == 22);
            assert(s[pos] == enc[0] && enc[0] == 't');
            assert(s[pos + 21] == enc[21] && enc[21] == ';');
            lemma_subrange_indexes(s, pos, enc);
            assert(s.subrange(pos + 1, pos + 21) =~= spec_digits(u as nat, 20)) by {
                assert forall|i: int|
                    0 <= i < 20 implies s.subrange(pos + 1, pos + 21)[i] == spec_digits(
                    u as nat,
                    20,
                )[i] by {
                    assert(s[pos + 1 + i] == enc[1 + i]);
                    assert((seq!['t'] + spec_digits(u as nat, 20))[1 + i] == spec_digits(
                        u as nat,
                        20,
                    )[i]);
                }
            }
            lemma_fixed_val_at(s, pos + 1, u as nat, 20);
            assert((t as u64) as i64 == t) by (bit_vector);
        },
    }
}

/// A visit counter reads back as itself wherever its encoding stands.
proof fn lemma_decode_count_at(s: Seq<char>, pos: int, vc: u32)
    requires
        0 <= pos,
        pos + 11 <= s.len(),
        s.subrange(pos, pos + 11) == spec_digits(vc as nat, 10) + seq![';'],
    ensures
        decode_count(s, pos) == Option::Some((vc, pos + 11)),
{
    lemma_pow10_values();
    lemma_spec_digits_len(vc as nat, 10);
    let enc = spec_digits(vc as nat, 10) + seq![';'];
    assert(s[pos + 10] == enc[10] && enc[10] == ';');
    assert(s.subrange(pos, pos + 10) =~= spec_digits(vc as nat, 10)) by {
        assert(forall|i: int|
            0 <= i < 10 ==> s.subrange(pos, pos + 10)[i] == #[trigger] enc[i]);
    }
    lemma_fixed_val_at(s, pos, vc as nat, 10);
}

/// An entry reads back as itself wherever its encoding stands.
#[verifier::rlimit(100)]
#[verifier::spinoff_prover]
proof fn lemma_decode_entry_at(s: Seq<char>, pos: int, e: EntryModel)
    requires
        0 <= pos,
        bounded_model(e),
        pos + encode_entry(e).len() <= s.len(),
        s.subrange(pos, pos + encode_entry(e).len()) == encode_entry(e),
    ensures
        decode_entry(s, pos) == Option::Some((e, pos + encode_entry(e).len())),
{
    let enc = encode_entry(e);
    let a = encode_str_field(e.short_code);
    let b = encode_str_field(e.long_url);
    let c = encode_str_field(e.note);
    let d = spec_digits(e.visit_count as nat, 10) + seq![';'];
    let ts = encode_timestamp(e.last_visit);
    lemma_spec_digits_len(e.short_code.len(), 20);
    lemma_spec_digits_len(e.long_url.len(), 20);
    lemma_spec_digits_len(e.note.len(), 20);
    lemma_spec_digits_len(e.visit_count as nat, 10);
    if e.last_visit is Some {
        lemma_spec_digits_len((e.last_visit->0 as u64) as nat, 20);
    }
    assert(enc =~= a + b + c + d + ts + seq!['\n']);
    let p1 = pos + a.len();
    let p2 = p1 + b.len();
    let p3 = p2 + c.len();
    let p4 = p3 + 11;
    let p5 = p4 + ts.len();
    lemma_subrange_indexes(s, pos, enc);
    assert(s.subrange(pos, p1) =~= a) by {
        assert forall|i: int| 0 <= i < a.len() implies s.subrange(pos, p1)[i] == a[i] by {
            assert(s[pos + i] == enc[i]);
            assert(enc[i] == a[i]);
        }
    }
    lemma_decode_str_field_at(s, pos, e.short_code);
    assert(s.subrange(p1, p2) =~= b) by {
        assert forall|i: int| 0 <= i < b.len() implies s.subrange(p1, p2)[i] == b[i] by {
            assert(s[p1 + i] == enc[p1 - pos + i]);
            assert((a + b)[p1 - pos + i] == b[i]);
            assert(enc[p1 - pos + i] == b[i]);
        }
    }
    lemma_decode_str_field_at(s, p1, e.long_url);
    assert(s.subrange(p2, p3) =~= c) by {
        assert forall|i: int| 0 <= i < c.len() implies s.subrange(p2, p3)[i] == c[i] by {
            assert(s[p2 + i] == enc[p2 - pos + i]);
            assert((a + b + c)[p2 - pos + i] == c[i]);
            assert(enc[p2 - pos + i] == c[i]);
        }
    }
    lemma_decode_str_field_at(s, p2, e.note);
    assert(s.subrange(p3, p4) =~= d) by {
        assert forall|i: int| 0 <= i < 11 implies s.subrange(p3, p4)[i] == d[i] by {
            assert(s[p3 + i] == enc[p3 - pos + i]);
            assert((a + b + c + d)[p3 - pos + i] == d[i]);
            assert(enc[p3 - pos + i] == d[i]);
        }
    }
    lemma_decode_count_at(s, p3, e.visit_count);
    assert(s.subrange(p4, p5) =~= ts) by {
        assert forall|i: int| 0 <= i < ts.len() implies s.subrange(p4, p5)[i] == ts[i] by {
            assert(s[p4 + i] == enc[p4 - pos + i]);
            assert((a + b + c + d + ts)[p4 - pos + i] == ts[i]);
            assert(enc[p4 - pos + i] == ts[i]);
        }
    }
    lemma_decode_timestamp_at(s, p4, e.last_visit);
    assert(s[p5] == enc[p5 - pos]);
    assert(enc[p5 - pos] == '\n');
}

/// A run of entries reads back as itself wherever its encoding stands.
#[verifier::rlimit(100)]
#[verifier::spinoff_prover]
proof fn lemma_decode_entries_at(s: Seq<char>, pos: int, es: Seq<EntryModel>)
    requires
        0 <= pos,
        bounded_models(es),
        pos + encode_entries(es).len() <= s.len(),
        s.subrange(pos, pos + encode_entries(es).len()) == encode_entries(es),
    ensures
        decode_entries(s, pos, es.len()) == Option::Some(
            (es, pos + encode_entries(es).len()),
        ),
    decreases es.len(),
{
    if es.len() == 0 {
        assert(es =~= Seq::<EntryModel>::empty());
    } else {
        let e0 = es[0];
        let rest = es.drop_first();
        let enc = encode_entries(es);
        let enc0 = encode_entry(e0);
        let encr = encode_entries(rest);
        assert(enc == enc0 + encr);
        lemma_subrange_indexes(s, pos, enc);
        let p1 = pos + enc0.len() as int;
        assert(s.subrange(pos, p1) =~= enc0) by {
            assert forall|i: int| 0 <= i < enc0.len() implies s.subrange(pos, p1)[i] == enc0[i] by {
                assert(s[pos + i] == enc[i]);
                assert(enc[i] == enc0[i]);
            }
        }
        assert(bounded_model(e0));
        lemma_decode_entry_at(s, pos, e0);
        assert(bounded_models(rest)) by {
            assert(forall|i: int|
                0 <= i < rest.len() ==> #[trigger] rest[i] == es[i + 1]);
        }
        assert(s.subrange(p1, p1 + encr.len() as int) =~= encr) by {
            assert forall|i: int|
                0 <= i < encr.len() implies s.subrange(p1, p1 + encr.len() as int)[i] == encr[i] by {
                assert(s[p1 + i] == enc[p1 - pos + i]);
                assert(enc[p1 - pos + i] == encr[i]);
            }
        }
        lemma_decode_entries_at(s, p1, rest);
        assert(seq![e0] + rest =~= es);
    }
}

/// The round trip of the persistence format: every document written for a
/// bounded sequence of entries reads back as exactly that sequence.
pub proof fn lemma_document_round_trip(es: Seq<EntryModel>)
    requires
        bounded_models(es),
    ensures
        decode_document(encode_document(es)) == Option::Some(es),
{
    lemma_pow10_values();
    let s = encode_document(es);
    let hdr = spec_digits(es.len(), 20) + seq![';'];
    let body = encode_entries(es);
    lemma_spec_digits_len(es.len(), 20);
    assert(s =~= hdr + body);
    assert(s[20] == ';');
    assert(s.subrange(0, 20) =~= spec_digits(es.len(), 20));
    lemma_fixed_val_at(s, 0, es.len(), 20);
    assert(s.subrange(21, 21 + body.len() as int) =~= body);
    lemma_decode_entries_at(s, 21, es);
}

/// Writing a run of entries and then one more appends that entry's encoding.
proof fn lemma_encode_entries_push(es: Seq<EntryModel>, e: EntryModel)
    ensures
        encode_entries(es.push(e)) == encode_entries(es) + encode_entry(e),
    decreases es.len(),
{
    if es.len() == 0 {
        assert(es.push(e)[0] == e);
        assert(es.push(e).drop_first() =~= Seq::<EntryModel>::empty());
        assert(encode_entries(es.push(e)) == encode_entry(e) + encode_entries(
            Seq::<EntryModel>::empty(),
        ));
        assert(encode_entries(Seq::<EntryModel>::empty()) == Seq::<char>::empty());
        assert(encode_entries(es) == Seq::<char>::empty());
        assert(encode_entries(es.push(e)) =~= encode_entries(es) + encode_entry(e));
    } else {
        assert(es.push(e)[0] == es[0]);
        assert(es.push(e).drop_first() =~= es.drop_first().push(e));
        lemma_encode_entries_push(es.drop_first(), e);
        assert(encode_entry(es[0]) + (encode_entries(es.drop_first()) + encode_entry(e))
            =~= (encode_entry(es[0]) + encode_entries(es.drop_first())) + encode_entry(e));
    }
}

/// Appends one length-prefixed string field.
fn append_str_field(out: &mut String, f: &str)
    ensures
        final(out)@ == old(out)@ + encode_str_field(f@),
        f@.len() <= u64::MAX,
{
    let l = f.unicode_len();
    proof {
        lemma_pow10_values();
    }
    let ds = digits_string(l as u64, 20);
    out.append(ds.as_str());
    out.append(":");
    out.append(f);
    proof {
        reveal_strlit(":");
        assert(out@ =~= old(out)@ + encode_str_field(f@));
    }
}

/// Appends the visit-time field.
fn append_timestamp(out: &mut String, o: Option<i64>)
    ensures
        final(out)@ == old(out)@ + encode_timestamp(o),
{
    match o {
        Option::None => {
            out.append("n;");
            proof {
                reveal_strlit("n;");
                assert(out@ =~= old(out)@ + encode_timestamp(o));
            }
        },
        Option::Some(t) => {
            proof {
                lemma_pow10_values();
            }
            out.append("t");
            let u: u64 = #[verifier::truncate] (t as u64);
            let ds = digits_string(u, 20);
            out.append(ds.as_str());
            out.append(";");
            proof {
                reveal_strlit("t");
                reveal_strlit(";");
                assert(out@ =~= old(out)@ + encode_timestamp(o));
            }
        },
    }
}

/// Appends one whole entry.
fn append_entry(out: &mut String, e: &UrlEntry)
    ensures
        final(out)@ == old(out)@ + encode_entry(e@),
        bounded_model(e@),
{
    proof {
        lemma_pow10_values();
    }
    append_str_field(out, e.short_code.as_str());
    append_str_field(out, e.long_url.as_str());
    append_str_field(out, e.note.as_str());
    let ds = digits_string(e.visit_count as u64, 10);
    out.append(ds.as_str());
    out.append(";");
    append_timestamp(out, e.last_visit);
    out.append("\n");
    proof {
        reveal_strlit(";");
        reveal_strlit("\n");
        assert(out@ =~= old(out)@ + encode_entry(e@));
    }
}

/// Renders the whole registry contents as one document.
pub fn encode_registry_doc(entries: &Vec<UrlEntry>) -> (r: String)
    ensures
        r@ == encode_document(seq_view(entries@)),
        bounded_models(seq_view(entries@)),
{
    proof {
        lemma_pow10_values();
    }
    let mut out = String::new();
    let n = entries.len();
    let ds = digits_string(n as u64, 20);
    out.append(ds.as_str());
    out.append(";");
    proof {
        reveal_strlit(";");
        assert(seq_view(entries@).take(0) =~= Seq::<EntryModel>::empty());
        assert(out@ =~= spec_digits(seq_view(entries@).len(), 20) + seq![';'] + encode_entries(
            seq_view(entries@).take(0),
        ));
    }
    let mut i: usize = 0;
    while i < n
        invariant
            n == entries.len(),
            i <= n,
            out@ == spec_digits(seq_view(entries@).len(), 20) + seq![';'] + encode_entries(
                seq_view(entries@).take(i as int),
            ),
            forall|j: int| 0 <= j < i ==> bounded_model(#[trigger] seq_view(entries@)[j]),
        decreases n - i,
    {
        append_entry(&mut out, &entries[i]);
        proof {
            let vs = seq_view(entries@);
            assert(vs.take(i + 1) =~= vs.take(i as int).push(vs[i as int]));
            lemma_encode_entries_push(vs.take(i as int), vs[i as int]);
            assert(out@ =~= spec_digits(vs.len(), 20) + seq![';'] + encode_entries(
                vs.take(i + 1),
            ));
        }
        i += 1;
    }
    proof {
        assert(seq_view(entries@).take(n as int) =~= seq_view(entries@));
        assert(seq_view(entries@).len() <= u64::MAX);
    }
    out
}

/// Parses one length-prefixed string field.
fn parse_str_field(s: &str, pos: usize) -> (r: Option<(String, usize)>)
    requires
        pos <= s@.len() <= usize::MAX,
    ensures
        match decode_str_field(s@, pos as int) {
            Option::Some((f, p)) => {
                &&& r matches Option::Some(v)
                &&& v.0@ == f
                &&& v.1 == p
            },
            Option::None => r is None,
        },
{
    let n = s.unicode_len();
    if n - pos < 21 {
        return Option::None;
    }
    let l = match parse_fixed_num(s, pos, 20) {
        Option::Some(l) => l,
        Option::None => {
            return Option::None;
        },
    };
    if s.get_char(pos + 20) != ':' {
        return Option::None;
    }
    let rem = n - (pos + 21);
    if l > rem as u64 {
        return Option::None;
    }
    let lu = l as usize;
    let f = s.substring_char(pos + 21, pos + 21 + lu).to_owned();
    Option::Some((f, pos + 21 + lu))
}

/// Parses the visit-time field.
fn parse_timestamp(s: &str, pos: usize) -> (r: Option<(Option<i64>, usize)>)
    requires
        pos <= s@.len() <= usize::MAX,
    ensures
        match decode_timestamp(s@, pos as int) {
            Option::Some((o, p)) => {
                &&& r matches Option::Some(v)
                &&& v.0 == o
                &&& v.1 == p
            },
            Option::None => r is None,
        },
{
    let n = s.unicode_len();
    if n - pos >= 2 && s.get_char(pos) == 'n' {
        if s.get_char(pos + 1) == ';' {
            Option::Some((Option::None, pos + 2))
        } else {
            Option::None
        }
    } else if n - pos >= 22 && s.get_char(pos) == 't' && s.get_char(pos + 21) == ';' {
        match parse_fixed_num(s, pos + 1, 20) {
            Option::Some(v) => Option::Some(
                (Option::Some(#[verifier::truncate] (v as i64)), pos + 22),
            ),
            Option::None => Option::None,
        }
    } else {
        Option::None
    }
}

/// Parses the visit-count field.
fn parse_count(s: &str, pos: usize) -> (r: Option<(u32, usize)>)
    requires
        pos <= s@.len() <= usize::MAX,
    ensures
        match decode_count(s@, pos as int) {
            Option::Some((c, p)) => {
                &&& r matches Option::Some(v)
                &&& v.0 == c
                &&& v.1 == p
            },
            Option::None => r is None,
        },
{
    let n = s.unicode_len();
    if n - pos < 11 {
        return Option::None;
    }
    if s.get_char(pos + 10) != ';' {
        return Option::None;
    }
    match parse_fixed_num(s, pos, 10) {
        Option::Some(v) => if v <= u32::MAX as u64 {
            Option::Some((v as u32, pos + 11))
        } else {
            Option::None
        },
        Option::None => Option::None,
    }
}

/// Parses one whole entry.
fn parse_entry(s: &str, pos: usize) -> (r: Option<(UrlEntry, usize)>)
    requires
        pos <= s@.len() <= usize::MAX,
    ensures
        match decode_entry(s@, pos as int) {
            Option::Some((e, p)) => {
                &&& r matches Option::Some(v)
                &&& v.0@ == e
                &&& v.1 == p
                &&& pos < p <= s@.len()
            },
            Option::None => r is None,
        },
{
    let n = s.unicode_len();
    let (code, p1) = match parse_str_field(s, pos) {
        Option::Some(v) => v,
        Option::None => {
            return Option::None;
        },
    };
    let (long_url, p2) = match parse_str_field(s, p1) {
        Option::Some(v) => v,
        Option::None => {
            return Option::None;
        },
    };
    let (note, p3) = match parse_str_field(s, p2) {
        Option::Some(v) => v,
        Option::None => {
            return Option::None;
        },
    };
    let (vc, p4) = match parse_count(s, p3) {
        Option::Some(v) => v,
        Option::None => {
            return Option::None;
        },
    };
    let (lv, p5) = match parse_timestamp(s, p4) {
        Option::Some(v) => v,
        Option::None => {
            return Option::None;
        },
    };
    if p5 >= n {
        return Option::None;
    }
    if s.get_char(p5) != '\n' {
        return Option::None;
    }
    Option::Some(
        (
            UrlEntry {
                short_code: code,
                long_url: long_url,
                note: note,
                visit_count: vc,
                last_visit: lv,
            },
            p5 + 1,
        ),
    )
}

/// Parses a whole document; yields `None` on any malformed input.
pub fn parse_document(s: &str) -> (r: Option<Vec<UrlEntry>>)
    ensures
        match decode_document(s@) {
            Option::Some(es) => {
                &&& r matches Option::Some(v)
                &&& seq_view(v@) == es
            },
            Option::None => r is None,
        },
{
    let n = s.unicode_len();
    if n < 21 {
        return Option::None;
    }
    if s.get_char(20) != ';' {
        return Option::None;
    }
    let cnt = match parse_fixed_num(s, 0, 20) {
        Option::Some(c) => c,
        Option::None => {
            return Option::None;
        },
    };
    let mut acc: Vec<UrlEntry> = Vec::new();
    let mut pos: usize = 21;
    let mut i: u64 = 0;
    proof {
        assert(seq_view(acc@) =~= Seq::<EntryModel>::empty());
    }
    while i < cnt
        invariant
            n == s@.len(),
            n <= usize::MAX,
            21 <= n,
            pos <= n,
            i <= cnt,
            s@[20] == ';',
            spec_fixed_val(s@, 0, 20) == Option::Some(cnt),
            decode_entries(s@, 21, cnt as nat) == (match decode_entries(
                s@,
                pos as int,
                (cnt - i) as nat,
            ) {
                Option::Some((es2, p)) => Option::Some((seq_view(acc@) + es2, p)),
                Option::None => Option::None::<(Seq<EntryModel>, int)>,
            }),
        decreases cnt - i,
    {
        match parse_entry(s, pos) {
            Option::Some((e, p)) => {
                proof {
                    let de = decode_entry(s@, pos as int);
                    assert(de matches Option::Some(w) && w.0 == e@ && w.1 == p);
                    let rest = decode_entries(s@, p as int, (cnt - i - 1) as nat);
                    assert(decode_entries(s@, pos as int, (cnt - i) as nat) == (match rest {
                        Option::Some((es3, p3)) => Option::Some((seq![e@] + es3, p3)),
                        Option::None => Option::None::<(Seq<EntryModel>, int)>,
                    }));
                    if rest is Some {
                        let (es3, p3) = rest->0;
                        assert(seq_view(acc@.push(e)) =~= seq_view(acc@).push(e@));
                        assert(seq_view(acc@) + (seq![e@] + es3) =~= seq_view(acc@.push(e))
                            + es3);
                    }
                }
                acc.push(e);
                pos = p;
                i = i + 1;
            },
            Option::None => {
                proof {
                    assert(decode_entries(s@, pos as int, (cnt - i) as nat) is None);
                }
                return Option::None;
            },
        }
    }
    proof {
        assert(decode_entries(s@, pos as int, 0) == Option::Some(
            (Seq::<EntryModel>::empty(), pos as int),
        ));
        assert(seq_view(acc@) + Seq::<EntryModel>::empty() =~= seq_view(acc@));
    }
    if pos == n {
        Option::Some(acc)
    } else {
        Option::None
    }
}

} // verus!
