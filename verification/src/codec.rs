//! The on-disk text format of the history store.
//!
//! One record per block, each field on a line of its own:
//!
//! ```text
//! key: 00000000000000000001
//! file_name: 00000000000000000008:test.txt
//! url: 00000000000000000019:https://example.com
//! stage_download: READY
//! ```
//!
//! Numbers are fixed-width decimal; the two text fields carry their byte
//! length so their content needs no escaping; the stage serializes as one
//! of the four enum names.  The format is specified byte for byte as a
//! function of the store value ([`store_bytes`]), the parser is specified
//! as a function of the input bytes ([`spec_parse_entries`]), and parsing
//! what was written provably restores the store.

use vstd::prelude::*;
use vstd::utf8::{decode_utf8, encode_utf8, encode_utf8_decode_utf8, encode_utf8_valid_utf8,
    valid_utf8};

use crate::history::{entries_view, sorted_keys, DownloadStage, HistoryDownload, RecordV, StoreV};

verus! {

/// Width of every serialized number: 20 decimal digits, enough for `u64`.
pub const DEC_WIDTH: usize = 20;

/// Ten to the `w`-th power.
pub open spec fn pow10(w: nat) -> int
    decreases w,
{
    if w == 0 {
        1
    } else {
        10 * pow10((w - 1) as nat)
    }
}

/// The `w` low decimal digits of `n`, zero padded, most significant first.
pub open spec fn dec_digits(n: int, w: nat) -> Seq<u8>
    decreases w,
{
    if w == 0 {
        Seq::empty()
    } else {
        dec_digits(n / 10, (w - 1) as nat).push((48 + n % 10) as u8)
    }
}

/// Every byte is an ASCII digit.
pub open spec fn digits_ok(s: Seq<u8>) -> bool {
    forall|i: int| 0 <= i < s.len() ==> 48 <= #[trigger] s[i] <= 57
}

/// The number a digit string denotes.
pub open spec fn dec_value(s: Seq<u8>) -> int
    decreases s.len(),
{
    if s.len() == 0 {
        0
    } else {
        dec_value(s.drop_last()) * 10 + (s.last() - 48)
    }
}

proof fn lemma_dec_digits_len(n: int, w: nat)
    ensures
        dec_digits(n, w).len() == w,
    decreases w,
{
    if w > 0 {
        lemma_dec_digits_len(n / 10, (w - 1) as nat);
    }
}

proof fn lemma_dec_digits_ok(n: int, w: nat)
    requires
        n >= 0,
    ensures
        digits_ok(dec_digits(n, w)),
    decreases w,
{
    if w > 0 {
        lemma_dec_digits_ok(n / 10, (w - 1) as nat);
    }
}

/// Writing `n` as `w` digits and reading the digits back yields `n`,
/// as long as `n` fits in `w` digits.
proof fn lemma_dec_roundtrip(n: int, w: nat)
    requires
        0 <= n < pow10(w),
    ensures
        dec_value(dec_digits(n, w)) == n,
    decreases w,
{
    if w > 0 {
        assert(n == 10 * (n / 10) + n % 10);
        lemma_dec_roundtrip(n / 10, (w - 1) as nat);
        assert(dec_digits(n, w).drop_last() =~= dec_digits(n / 10, (w - 1) as nat));
    }
}

/// `pow10(DEC_WIDTH)` written out, so `u64` values always fit.
proof fn lemma_pow10_width()
    ensures
        pow10(20) == 0x56bc75e2d63100000,
        u64::MAX < pow10(20),
{
    reveal_with_fuel(pow10, 21);
}

/// `"key: "` as bytes.
pub open spec fn key_label() -> Seq<u8> {
    seq![107u8, 101u8, 121u8, 58u8, 32u8]
}

/// `"file_name: "` as bytes.
pub open spec fn name_label() -> Seq<u8> {
    seq![102u8, 105u8, 108u8, 101u8, 95u8, 110u8, 97u8, 109u8, 101u8, 58u8, 32u8]
}

/// `"url: "` as bytes.
pub open spec fn url_label() -> Seq<u8> {
    seq![117u8, 114u8, 108u8, 58u8, 32u8]
}

/// `"stage_download: "` as bytes.
pub open spec fn stage_label() -> Seq<u8> {
    seq![115u8, 116u8, 97u8, 103u8, 101u8, 95u8, 100u8, 111u8, 119u8, 110u8, 108u8, 111u8, 97u8, 100u8, 58u8,
        32u8]
}

/// The serialized name of a stage.
pub open spec fn stage_token(st: DownloadStage) -> Seq<u8> {
    match st {
        DownloadStage::READY => seq![82u8, 69u8, 65u8, 68u8, 89u8],
        DownloadStage::DOWNLOADING => seq![68u8, 79u8, 87u8, 78u8, 76u8, 79u8, 65u8, 68u8, 73u8,
            78u8, 71u8],
        DownloadStage::MERGING => seq![77u8, 69u8, 82u8, 71u8, 73u8, 78u8, 71u8],
        DownloadStage::COMPLETE => seq![67u8, 79u8, 77u8, 80u8, 76u8, 69u8, 84u8, 69u8],
    }
}

/// A line break.
pub open spec fn nl() -> Seq<u8> {
    seq![10u8]
}

/// The separator between a byte count and the counted bytes.
pub open spec fn colon() -> Seq<u8> {
    seq![58u8]
}

/// A length-prefixed chunk of raw bytes.
pub open spec fn len_field(bytes: Seq<u8>) -> Seq<u8> {
    dec_digits(bytes.len() as int, 20) + colon() + bytes
}

/// One serialized record block.
pub open spec fn entry_bytes(k: u32, r: RecordV) -> Seq<u8> {
    key_label() + dec_digits(k as int, 20) + nl() + name_label() + len_field(
        encode_utf8(r.file_name),
    ) + nl() + url_label() + len_field(encode_utf8(r.url)) + nl() + stage_label() + stage_token(
        r.stage_download,
    ) + nl()
}

/// The serialized store: the record blocks in order, nothing else.
pub open spec fn store_bytes(entries: Seq<(u32, RecordV)>) -> Seq<u8>
    decreases entries.len(),
{
    if entries.len() == 0 {
        Seq::empty()
    } else {
        entry_bytes(entries[0].0, entries[0].1) + store_bytes(entries.drop_first())
    }
}

/// Serializing one more entry appends one more block.
proof fn lemma_store_bytes_push(entries: Seq<(u32, RecordV)>, e: (u32, RecordV))
    ensures
        store_bytes(entries.push(e)) == store_bytes(entries) + entry_bytes(e.0, e.1),
    decreases entries.len(),
{
    if entries.len() == 0 {
        assert(entries.push(e).drop_first() =~= Seq::<(u32, RecordV)>::empty());
        assert(store_bytes(entries.push(e).drop_first()) =~= Seq::<u8>::empty());
        assert(entries.push(e)[0] == e);
        assert(store_bytes(entries) =~= Seq::<u8>::empty());
        assert(store_bytes(entries.push(e)) =~= store_bytes(entries) + entry_bytes(e.0, e.1));
    } else {
        assert(entries.push(e).drop_first() =~= entries.drop_first().push(e));
        lemma_store_bytes_push(entries.drop_first(), e);
        assert(store_bytes(entries.push(e)) =~= store_bytes(entries) + entry_bytes(e.0, e.1));
    }
}

/// Appends the `w` low decimal digits of `n`, zero padded.
fn push_dec(out: &mut Vec<u8>, n: u64, w: usize)
    ensures
        final(out)@ == old(out)@ + dec_digits(n as int, w as nat),
    decreases w,
{
    if w == 0 {
        proof {
            assert(out@ =~= old(out)@ + dec_digits(n as int, 0));
        }
    } else {
        push_dec(out, n / 10, w - 1);
        out.push((n % 10) as u8 + 48);
        proof {
            assert(out@ =~= old(out)@ + dec_digits(n as int, w as nat));
        }
    }
}

/// Appends `"key: "`.
fn push_key_label(out: &mut Vec<u8>)
    ensures
        final(out)@ == old(out)@ + key_label(),
{
    out.push(107u8);
    out.push(101u8);
    out.push(121u8);
    out.push(58u8);
    out.push(32u8);
    proof {
        assert(out@ =~= old(out)@ + key_label());
    }
}

/// Appends `"file_name: "`.
fn push_name_label(out: &mut Vec<u8>)
    ensures
        final(out)@ == old(out)@ + name_label(),
{
    out.push(102u8);
    out.push(105u8);
    out.push(108u8);
    out.push(101u8);
    out.push(95u8);
    out.push(110u8);
    out.push(97u8);
    out.push(109u8);
    out.push(101u8);
    out.push(58u8);
    out.push(32u8);
    proof {
        assert(out@ =~= old(out)@ + name_label());
    }
}

/// Appends `"url: "`.
fn push_url_label(out: &mut Vec<u8>)
    ensures
        final(out)@ == old(out)@ + url_label(),
{
    out.push(117u8);
    out.push(114u8);
    out.push(108u8);
    out.push(58u8);
    out.push(32u8);
    proof {
        assert(out@ =~= old(out)@ + url_label());
    }
}

/// Appends `"stage_download: "`.
fn push_stage_label(out: &mut Vec<u8>)
    ensures
        final(out)@ == old(out)@ + stage_label(),
{
    out.push(115u8);
    out.push(116u8);
    out.push(97u8);
    out.push(103u8);
    out.push(101u8);
    out.push(95u8);
    out.push(100u8);
    out.push(111u8);
    out.push(119u8);
    out.push(110u8);
    out.push(108u8);
    out.push(111u8);
    out.push(97u8);
    out.push(100u8);
    out.push(58u8);
    out.push(32u8);
    proof {
        assert(out@ =~= old(out)@ + stage_label());
    }
}

/// Appends the name of `st`.
fn push_stage_token(out: &mut Vec<u8>, st: DownloadStage)
    ensures
        final(out)@ == old(out)@ + stage_token(st),
{
    match st {
        DownloadStage::READY => {
            out.push(82u8);
            out.push(69u8);
            out.push(65u8);
            out.push(68u8);
            out.push(89u8);
        },
        DownloadStage::DOWNLOADING => {
            out.push(68u8);
            out.push(79u8);
            out.push(87u8);
            out.push(78u8);
            out.push(76u8);
            out.push(79u8);
            out.push(65u8);
            out.push(68u8);
            out.push(73u8);
            out.push(78u8);
            out.push(71u8);
        },
        DownloadStage::MERGING => {
            out.push(77u8);
            out.push(69u8);
            out.push(82u8);
            out.push(71u8);
            out.push(73u8);
            out.push(78u8);
            out.push(71u8);
        },
        DownloadStage::COMPLETE => {
            out.push(67u8);
            out.push(79u8);
            out.push(77u8);
            out.push(80u8);
            out.push(76u8);
            out.push(69u8);
            out.push(84u8);
            out.push(69u8);
        },
    }
    proof {
        assert(out@ =~= old(out)@ + stage_token(st));
    }
}

/// Appends a length-prefixed text field: the byte length of `s`'s UTF-8
/// form, a colon, then the bytes themselves.
fn push_text_field(out: &mut Vec<u8>, s: &String)
    ensures
        final(out)@ == old(out)@ + len_field(encode_utf8(s@)),
        encode_utf8(s@).len() < pow10(20),
{
    let mut bytes = s.as_str().as_bytes_vec();
    let bytes_len = bytes.len();
    proof {
        lemma_pow10_width();
    }
    push_dec(out, bytes_len as u64, DEC_WIDTH);
    out.push(58u8);
    out.append(&mut bytes);
    proof {
        assert(out@ =~= old(out)@ + len_field(encode_utf8(s@)));
    }
}

/// Appends one record block.
fn push_entry(out: &mut Vec<u8>, k: u32, rec: &HistoryDownload)
    ensures
        final(out)@ == old(out)@ + entry_bytes(k, rec@),
        record_fits(rec@),
{
    proof {
        lemma_pow10_width();
    }
    push_key_label(out);
    push_dec(out, k as u64, DEC_WIDTH);
    out.push(10u8);
    push_name_label(out);
    push_text_field(out, &rec.file_name);
    out.push(10u8);
    push_url_label(out);
    push_text_field(out, &rec.url);
    out.push(10u8);
    push_stage_label(out);
    push_stage_token(out, rec.stage_download);
    out.push(10u8);
    proof {
        assert(out@ =~= old(out)@ + entry_bytes(k, rec@));
    }
}

/// Serializes keyed records to the full file contents.
pub fn entries_to_bytes(entries: &Vec<(u32, HistoryDownload)>) -> (out: Vec<u8>)
    ensures
        out@ == store_bytes(entries_view(entries@)),
        entries_fit(entries_view(entries@)),
{
    let mut out: Vec<u8> = Vec::new();
    let n = entries.len();
    let mut i: usize = 0;
    proof {
        assert(entries_view(entries@).take(0) =~= Seq::<(u32, RecordV)>::empty());
    }
    while i < n
        invariant
            n == entries@.len(),
            0 <= i <= n,
            out@ == store_bytes(entries_view(entries@).take(i as int)),
            forall|j: int| 0 <= j < i ==> record_fits(#[trigger] entries_view(entries@)[j].1),
        decreases n - i,
    {
        let p = &entries[i];
        push_entry(&mut out, p.0, &p.1);
        proof {
            let ev = entries_view(entries@);
            assert(ev.take(i + 1) =~= ev.take(i as int).push(ev[i as int]));
            lemma_store_bytes_push(ev.take(i as int), ev[i as int]);
        }
        i = i + 1;
    }
    proof {
        assert(entries_view(entries@).take(n as int) =~= entries_view(entries@));
    }
    out
}

/// Whether `lab` stands at `pos` in `b`; on success the position after it.
pub open spec fn spec_eat(b: Seq<u8>, pos: int, lab: Seq<u8>) -> Option<int> {
    if 0 <= pos && pos + lab.len() <= b.len() && b.subrange(pos, pos + lab.len()) == lab {
        Some(pos + lab.len())
    } else {
        None
    }
}

/// A fixed-width number at `pos`: its value and the position after it.
pub open spec fn spec_parse_dec(b: Seq<u8>, pos: int) -> Option<(int, int)> {
    if 0 <= pos && pos + 20 <= b.len() && digits_ok(b.subrange(pos, pos + 20)) {
        Some((dec_value(b.subrange(pos, pos + 20)), pos + 20))
    } else {
        None
    }
}

/// `n` raw bytes at `pos`.
pub open spec fn spec_take(b: Seq<u8>, pos: int, n: int) -> Option<(Seq<u8>, int)> {
    if 0 <= pos && 0 <= n && pos + n <= b.len() {
        Some((b.subrange(pos, pos + n), pos + n))
    } else {
        None
    }
}

/// A length-prefixed text field at `pos`, decoded from UTF-8.
pub open spec fn spec_parse_text(b: Seq<u8>, pos: int) -> Option<(Seq<char>, int)> {
    match spec_parse_dec(b, pos) {
        None => None,
        Some((n, p1)) => match spec_eat(b, p1, colon()) {
            None => None,
            Some(p2) => match spec_take(b, p2, n) {
                None => None,
                Some((bytes, p3)) => if valid_utf8(bytes) {
                    Some((decode_utf8(bytes), p3))
                } else {
                    None
                },
            },
        },
    }
}

/// A stage name at `pos`.  The four names differ in their first byte, so
/// the order the alternatives are tried in cannot matter.
pub open spec fn spec_parse_stage(b: Seq<u8>, pos: int) -> Option<(DownloadStage, int)> {
    if spec_eat(b, pos, stage_token(DownloadStage::READY)) is Some {
        Some((DownloadStage::READY, pos + 5))
    } else if spec_eat(b, pos, stage_token(DownloadStage::DOWNLOADING)) is Some {
        Some((DownloadStage::DOWNLOADING, pos + 11))
    } else if spec_eat(b, pos, stage_token(DownloadStage::MERGING)) is Some {
        Some((DownloadStage::MERGING, pos + 7))
    } else if spec_eat(b, pos, stage_token(DownloadStage::COMPLETE)) is Some {
        Some((DownloadStage::COMPLETE, pos + 8))
    } else {
        None
    }
}

/// One record block at `pos`: the keyed record and the position after it.
pub open spec fn spec_parse_entry(b: Seq<u8>, pos: int) -> Option<((u32, RecordV), int)> {
    match spec_eat(b, pos, key_label()) {
        None => None,
        Some(p1) => match spec_parse_dec(b, p1) {
            None => None,
            Some((kv, p2)) => if kv > u32::MAX {
                None
            } else {
                match spec_eat(b, p2, nl()) {
                    None => None,
                    Some(p3) => match spec_eat(b, p3, name_label()) {
                        None => None,
                        Some(p4) => match spec_parse_text(b, p4) {
                            None => None,
                            Some((name, p5)) => match spec_eat(b, p5, nl()) {
                                None => None,
                                Some(p6) => match spec_eat(b, p6, url_label()) {
                                    None => None,
                                    Some(p7) => match spec_parse_text(b, p7) {
                                        None => None,
                                        Some((url, p8)) => match spec_eat(b, p8, nl()) {
                                            None => None,
                                            Some(p9) => match spec_eat(b, p9, stage_label()) {
                                                None => None,
                                                Some(p10) => match spec_parse_stage(b, p10) {
                                                    None => None,
                                                    Some((st, p11)) => match spec_eat(b, p11, nl()) {
                                                        None => None,
                                                        Some(p12) => Some((
                                                            (kv as u32, (RecordV {
                                                                file_name: name,
                                                                url: url,
                                                                stage_download: st,
                                                            })),
                                                            p12,
                                                        )),
                                                    },
                                                },
                                            },
                                        },
                                    },
                                },
                            },
                        },
                    },
                }
            },
        },
    }
}

/// The whole input as record blocks, back to back, nothing after them.
pub open spec fn spec_parse_entries(b: Seq<u8>, pos: int) -> Option<Seq<(u32, RecordV)>>
    decreases b.len() - pos,
{
    if pos == b.len() {
        Some(Seq::empty())
    } else if !(0 <= pos < b.len()) {
        None
    } else {
        match spec_parse_entry(b, pos) {
            None => None,
            Some((e, np)) => if pos < np <= b.len() {
                match spec_parse_entries(b, np) {
                    None => None,
                    Some(rest) => Some(seq![e] + rest),
                }
            } else {
                None
            },
        }
    }
}

/// `pow10` grows with the exponent.
proof fn lemma_pow10_mono(i: nat, j: nat)
    requires
        i <= j,
    ensures
        0 < pow10(i) <= pow10(j),
    decreases j,
{
    if i < j {
        lemma_pow10_mono(i, (j - 1) as nat);
    } else if j > 0 {
        lemma_pow10_mono((i - 1) as nat, (j - 1) as nat);
    }
}

/// Builds `"key: "`.
fn key_label_vec() -> (v: Vec<u8>)
    ensures
        v@ == key_label(),
{
    let mut v: Vec<u8> = Vec::new();
    push_key_label(&mut v);
    proof {
        assert(v@ =~= key_label());
    }
    v
}

/// Builds `"file_name: "`.
fn name_label_vec() -> (v: Vec<u8>)
    ensures
        v@ == name_label(),
{
    let mut v: Vec<u8> = Vec::new();
    push_name_label(&mut v);
    proof {
        assert(v@ =~= name_label());
    }
    v
}

/// Builds `"url: "`.
fn url_label_vec() -> (v: Vec<u8>)
    ensures
        v@ == url_label(),
{
    let mut v: Vec<u8> = Vec::new();
    push_url_label(&mut v);
    proof {
        assert(v@ =~= url_label());
    }
    v
}

/// Builds `"stage_download: "`.
fn stage_label_vec() -> (v: Vec<u8>)
    ensures
        v@ == stage_label(),
{
    let mut v: Vec<u8> = Vec::new();
    push_stage_label(&mut v);
    proof {
        assert(v@ =~= stage_label());
    }
    v
}

/// Builds the name of `st`.
fn stage_token_vec(st: DownloadStage) -> (v: Vec<u8>)
    ensures
        v@ == stage_token(st),
{
    let mut v: Vec<u8> = Vec::new();
    push_stage_token(&mut v, st);
    proof {
        assert(v@ =~= stage_token(st));
    }
    v
}

/// Checks that `lab` stands at `pos` in `b`.
fn eat(b: &Vec<u8>, pos: usize, lab: &Vec<u8>) -> (r: Option<usize>)
    ensures
        match r {
            Some(np) => spec_eat(b@, pos as int, lab@) == Some(np as int),
            None => spec_eat(b@, pos as int, lab@) is None,
        },
{
    if pos > b.len() || b.len() - pos < lab.len() {
        return None;
    }
    let blen = b.len();
    let n = lab.len();
    let mut i: usize = 0;
    while i < n
        invariant
            n == lab@.len(),
            blen == b@.len(),
            pos + n <= blen,
            0 <= i <= n,
            forall|j: int| 0 <= j < i ==> b@[pos + j] == lab@[j],
        decreases n - i,
    {
        if b[pos + i] != lab[i] {
            proof {
                assert(b@.subrange(pos as int, pos + n) != lab@) by {
                    assert(b@.subrange(pos as int, pos + n)[i as int] != lab@[i as int]);
                }
            }
            return None;
        }
        i = i + 1;
    }
    proof {
        assert(b@.subrange(pos as int, pos + n) =~= lab@);
    }
    Some(pos + n)
}

/// Reads a fixed-width number at `pos`.
fn parse_dec(b: &Vec<u8>, pos: usize) -> (r: Option<(u128, usize)>)
    ensures
        match r {
            Some((v, np)) => spec_parse_dec(b@, pos as int) == Some((v as int, np as int)),
            None => spec_parse_dec(b@, pos as int) is None,
        },
{
    if pos > b.len() || b.len() - pos < DEC_WIDTH {
        return None;
    }
    let blen = b.len();
    let mut acc: u128 = 0;
    let mut i: usize = 0;
    while i < DEC_WIDTH
        invariant
            blen == b@.len(),
            pos + 20 <= blen,
            0 <= i <= 20,
            digits_ok(b@.subrange(pos as int, pos + i)),
            acc == dec_value(b@.subrange(pos as int, pos + i)),
            acc < pow10(i as nat),
        decreases 20 - i,
    {
        let d = b[pos + i];
        if d < 48 || d > 57 {
            proof {
                assert(!digits_ok(b@.subrange(pos as int, pos + 20))) by {
                    assert(b@.subrange(pos as int, pos + 20)[i as int] == d);
                }
            }
            return None;
        }
        proof {
            lemma_pow10_width();
            lemma_pow10_mono(i as nat, 19);
            assert(pow10((i + 1) as nat) == 10 * pow10(i as nat));
        }
        acc = acc * 10 + (d - 48) as u128;
        proof {
            let prev = b@.subrange(pos as int, pos + i);
            let cur = b@.subrange(pos as int, pos + i + 1);
            assert(cur.drop_last() =~= prev);
            assert(cur.last() == d);
        }
        i = i + 1;
    }
    proof {
        assert(b@.subrange(pos as int, pos + 20) == b@.subrange(pos as int, pos + i));
    }
    Some((acc, pos + DEC_WIDTH))
}

/// Copies `n` raw bytes at `pos` out of `b`.
fn take_bytes(b: &Vec<u8>, pos: usize, n: u128) -> (r: Option<(Vec<u8>, usize)>)
    ensures
        match r {
            Some((v, np)) => spec_take(b@, pos as int, n as int) == Some((v@, np as int)),
            None => spec_take(b@, pos as int, n as int) is None,
        },
{
    if pos > b.len() {
        return None;
    }
    if n > (b.len() - pos) as u128 {
        return None;
    }
    let blen = b.len();
    let n_us = n as usize;
    let mut v: Vec<u8> = Vec::new();
    let mut i: usize = 0;
    while i < n_us
        invariant
            blen == b@.len(),
            n_us == n,
            pos + n_us <= blen,
            0 <= i <= n_us,
            v@ =~= b@.subrange(pos as int, pos + i),
        decreases n_us - i,
    {
        v.push(b[pos + i]);
        proof {
            assert(v@ =~= b@.subrange(pos as int, pos + i + 1));
        }
        i = i + 1;
    }
    proof {
        assert(v@ =~= b@.subrange(pos as int, pos + n as int));
    }
    Some((v, pos + n_us))
}

/// Relies on `String::from_utf8`: it succeeds exactly on valid UTF-8, and
/// the returned string's UTF-8 form is the input, byte for byte (vstd's
/// `encode_utf8` specifies the encoding, as it does for `str::as_bytes`).
#[verifier::external_body]
fn bytes_to_string(bytes: Vec<u8>) -> (r: Option<String>)
    ensures
        r is Some <==> valid_utf8(bytes@),
        r matches Some(s) ==> encode_utf8(s@) == bytes@,
{
    String::from_utf8(bytes).ok()
}

/// Reads a length-prefixed text field at `pos`.
fn parse_text(b: &Vec<u8>, pos: usize) -> (r: Option<(String, usize)>)
    ensures
        match r {
            Some((s, np)) => spec_parse_text(b@, pos as int) == Some((s@, np as int)),
            None => spec_parse_text(b@, pos as int) is None,
        },
{
    let (n, p1) = match parse_dec(b, pos) {
        Some(x) => x,
        None => {
            return None;
        },
    };
    let colon_v = colon_vec();
    let p2 = match eat(b, p1, &colon_v) {
        Some(x) => x,
        None => {
            return None;
        },
    };
    let (bytes, p3) = match take_bytes(b, p2, n) {
        Some(x) => x,
        None => {
            return None;
        },
    };
    let ghost bv = bytes@;
    let s = match bytes_to_string(bytes) {
        Some(s) => s,
        None => {
            return None;
        },
    };
    proof {
        encode_utf8_decode_utf8(s@);
    }
    Some((s, p3))
}

/// Builds `":"`.
fn colon_vec() -> (v: Vec<u8>)
    ensures
        v@ == colon(),
{
    let mut v: Vec<u8> = Vec::new();
    v.push(58u8);
    proof {
        assert(v@ =~= colon());
    }
    v
}

/// Builds a line break.
fn nl_vec() -> (v: Vec<u8>)
    ensures
        v@ == nl(),
{
    let mut v: Vec<u8> = Vec::new();
    v.push(10u8);
    proof {
        assert(v@ =~= nl());
    }
    v
}

/// Reads a stage name at `pos`.
fn parse_stage(b: &Vec<u8>, pos: usize) -> (r: Option<(DownloadStage, usize)>)
    ensures
        match r {
            Some((st, np)) => spec_parse_stage(b@, pos as int) == Some((st, np as int)),
            None => spec_parse_stage(b@, pos as int) is None,
        },
{
    let ready = stage_token_vec(DownloadStage::READY);
    if let Some(np) = eat(b, pos, &ready) {
        return Some((DownloadStage::READY, np));
    }
    let downloading = stage_token_vec(DownloadStage::DOWNLOADING);
    if let Some(np) = eat(b, pos, &downloading) {
        return Some((DownloadStage::DOWNLOADING, np));
    }
    let merging = stage_token_vec(DownloadStage::MERGING);
    if let Some(np) = eat(b, pos, &merging) {
        return Some((DownloadStage::MERGING, np));
    }
    let complete = stage_token_vec(DownloadStage::COMPLETE);
    if let Some(np) = eat(b, pos, &complete) {
        return Some((DownloadStage::COMPLETE, np));
    }
    None
}

/// Reads one record block at `pos`.
fn parse_entry(b: &Vec<u8>, pos: usize) -> (r: Option<((u32, HistoryDownload), usize)>)
    ensures
        match r {
            Some((e, np)) => spec_parse_entry(b@, pos as int) == Some(((e.0, e.1@), np as int)),
            None => spec_parse_entry(b@, pos as int) is None,
        },
{
    let key_l = key_label_vec();
    let nl_v = nl_vec();
    let p1 = match eat(b, pos, &key_l) {
        Some(x) => x,
        None => {
            return None;
        },
    };
    let (kv, p2) = match parse_dec(b, p1) {
        Some(x) => x,
        None => {
            return None;
        },
    };
    if kv > u32::MAX as u128 {
        return None;
    }
    let p3 = match eat(b, p2, &nl_v) {
        Some(x) => x,
        None => {
            return None;
        },
    };
    let name_l = name_label_vec();
    let p4 = match eat(b, p3, &name_l) {
        Some(x) => x,
        None => {
            return None;
        },
    };
    let (name, p5) = match parse_text(b, p4) {
        Some(x) => x,
        None => {
            return None;
        },
    };
    let p6 = match eat(b, p5, &nl_v) {
        Some(x) => x,
        None => {
            return None;
        },
    };
    let url_l = url_label_vec();
    let p7 = match eat(b, p6, &url_l) {
        Some(x) => x,
        None => {
            return None;
        },
    };
    let (url, p8) = match parse_text(b, p7) {
        Some(x) => x,
        None => {
            return None;
        },
    };
    let p9 = match eat(b, p8, &nl_v) {
        Some(x) => x,
        None => {
            return None;
        },
    };
    let stage_l = stage_label_vec();
    let p10 = match eat(b, p9, &stage_l) {
        Some(x) => x,
        None => {
            return None;
        },
    };
    let (st, p11) = match parse_stage(b, p10) {
        Some(x) => x,
        None => {
            return None;
        },
    };
    let p12 = match eat(b, p11, &nl_v) {
        Some(x) => x,
        None => {
            return None;
        },
    };
    let rec = HistoryDownload { file_name: name, url: url, stage_download: st };
    Some(((kv as u32, rec), p12))
}

/// Reads the whole input as record blocks.
pub fn parse_store(b: &Vec<u8>) -> (r: Option<Vec<(u32, HistoryDownload)>>)
    ensures
        match r {
            Some(v) => spec_parse_entries(b@, 0) == Some(entries_view(v@)),
            None => spec_parse_entries(b@, 0) is None,
        },
{
    let mut out: Vec<(u32, HistoryDownload)> = Vec::new();
    let mut pos: usize = 0;
    proof {
        assert(entries_view(out@) =~= Seq::<(u32, RecordV)>::empty());
    }
    while pos < b.len()
        invariant
            pos <= b@.len(),
            (match spec_parse_entries(b@, pos as int) {
                Some(rest) => spec_parse_entries(b@, 0) == Some(entries_view(out@) + rest),
                None => spec_parse_entries(b@, 0) is None,
            }),
        decreases b@.len() - pos,
    {
        let (e, np) = match parse_entry(b, pos) {
            Some(x) => x,
            None => {
                return None;
            },
        };
        if np <= pos || np > b.len() {
            return None;
        }
        let ghost prev = entries_view(out@);
        let ghost ev = (e.0, e.1@);
        out.push(e);
        proof {
            assert(entries_view(out@) =~= prev.push(ev));
            match spec_parse_entries(b@, np as int) {
                Some(rest) => {
                    assert(prev + (seq![ev] + rest) =~= prev.push(ev) + rest);
                },
                None => {},
            }
        }
        pos = np;
    }
    proof {
        assert(entries_view(out@) + Seq::<(u32, RecordV)>::empty() =~= entries_view(out@));
    }
    Some(out)
}


/// A record small enough to serialize: both text fields fit the
/// fixed-width byte count.  Anything that fits in memory does.
pub open spec fn record_fits(r: RecordV) -> bool {
    &&& encode_utf8(r.file_name).len() < pow10(20)
    &&& encode_utf8(r.url).len() < pow10(20)
}

/// Every record of the store fits (see [`record_fits`]).
pub open spec fn entries_fit(entries: Seq<(u32, RecordV)>) -> bool {
    forall|i: int| 0 <= i < entries.len() ==> record_fits(#[trigger] entries[i].1)
}

/// When the input from `pos` on reads `lab` then `rest`, eating `lab`
/// succeeds and leaves `rest`.
proof fn lemma_eat_at(b: Seq<u8>, pos: int, lab: Seq<u8>, rest: Seq<u8>)
    requires
        0 <= pos <= b.len(),
        b.subrange(pos, b.len() as int) == lab + rest,
    ensures
        spec_eat(b, pos, lab) == Some(pos + lab.len()),
        b.subrange(pos + lab.len(), b.len() as int) == rest,
{
    assert(b.subrange(pos, b.len() as int).len() == b.len() - pos);
    assert((lab + rest).len() == lab.len() + rest.len());
    assert forall|i: int| 0 <= i < lab.len() implies b.subrange(pos, pos + lab.len())[i]
        == lab[i] by {
        assert(b.subrange(pos, b.len() as int)[i] == (lab + rest)[i]);
    }
    assert(b.subrange(pos, pos + lab.len()) =~= lab);
    assert(pos + lab.len() + rest.len() == b.len());
    assert forall|i: int| 0 <= i < rest.len() implies b.subrange(
        pos + lab.len(),
        b.len() as int,
    )[i] == rest[i] by {
        assert(b.subrange(pos + lab.len(), b.len() as int)[i] == b[pos + lab.len() + i]);
        assert(b.subrange(pos, b.len() as int)[lab.len() + i] == (lab + rest)[lab.len() + i]);
        assert(b.subrange(pos, b.len() as int)[lab.len() + i] == b[pos + lab.len() + i]);
        assert((lab + rest)[lab.len() + i] == rest[i]);
    }
    assert(b.subrange(pos + lab.len(), b.len() as int) =~= rest);
}

/// When the input from `pos` on reads the `w`-digit form of `n` then
/// `rest`, the number parser returns `n` and leaves `rest`.
proof fn lemma_dec_at(b: Seq<u8>, pos: int, n: int, rest: Seq<u8>)
    requires
        0 <= pos <= b.len(),
        0 <= n < pow10(20),
        b.subrange(pos, b.len() as int) == dec_digits(n, 20) + rest,
    ensures
        spec_parse_dec(b, pos) == Some((n, pos + 20)),
        b.subrange(pos + 20, b.len() as int) == rest,
{
    lemma_dec_digits_len(n, 20);
    lemma_dec_digits_ok(n, 20);
    lemma_dec_roundtrip(n, 20);
    lemma_eat_at(b, pos, dec_digits(n, 20), rest);
    assert(b.subrange(pos, pos + 20) == dec_digits(n, 20));
}

/// When the input from `pos` on reads `data` then `rest`, taking
/// `data.len()` raw bytes yields `data` and leaves `rest`.
proof fn lemma_take_at(b: Seq<u8>, pos: int, data: Seq<u8>, rest: Seq<u8>)
    requires
        0 <= pos <= b.len(),
        b.subrange(pos, b.len() as int) == data + rest,
    ensures
        spec_take(b, pos, data.len() as int) == Some((data, pos + data.len())),
        b.subrange(pos + data.len(), b.len() as int) == rest,
{
    lemma_eat_at(b, pos, data, rest);
    assert(b.subrange(pos, pos + data.len()) == data);
}

/// When the input from `pos` on reads the serialized form of the text
/// `s` then `rest`, the text parser returns `s` and leaves `rest`.
proof fn lemma_text_at(b: Seq<u8>, pos: int, s: Seq<char>, rest: Seq<u8>)
    requires
        0 <= pos <= b.len(),
        encode_utf8(s).len() < pow10(20),
        b.subrange(pos, b.len() as int) == len_field(encode_utf8(s)) + rest,
    ensures
        spec_parse_text(b, pos) == Some((s, pos + 21 + encode_utf8(s).len())),
        b.subrange(pos + 21 + encode_utf8(s).len(), b.len() as int) == rest,
{
    let data = encode_utf8(s);
    let r1 = colon() + data + rest;
    assert(b.subrange(pos, b.len() as int) =~= dec_digits(data.len() as int, 20) + r1);
    lemma_dec_at(b, pos, data.len() as int, r1);
    let r2 = data + rest;
    assert(b.subrange(pos + 20, b.len() as int) =~= colon() + r2);
    lemma_eat_at(b, pos + 20, colon(), r2);
    lemma_take_at(b, pos + 21, data, rest);
    encode_utf8_valid_utf8(s);
    encode_utf8_decode_utf8(s);
}

/// When the input from `pos` on reads the name of `st` then a line
/// break, the stage parser returns `st`; the names differ pairwise in
/// their first byte, so no other alternative can fire first.
proof fn lemma_stage_at(b: Seq<u8>, pos: int, st: DownloadStage, rest: Seq<u8>)
    requires
        0 <= pos <= b.len(),
        b.subrange(pos, b.len() as int) == stage_token(st) + nl() + rest,
    ensures
        spec_parse_stage(b, pos) == Some((st, pos + stage_token(st).len())),
        b.subrange(pos + stage_token(st).len(), b.len() as int) == nl() + rest,
{
    assert(b.subrange(pos, b.len() as int) =~= stage_token(st) + (nl() + rest));
    lemma_eat_at(b, pos, stage_token(st), nl() + rest);
    assert(b[pos] == stage_token(st)[0]) by {
        assert(b.subrange(pos, pos + stage_token(st).len())[0] == stage_token(st)[0]);
    }
    assert forall|other: DownloadStage| other != st implies spec_eat(
        b,
        pos,
        stage_token(other),
    ) is None by {
        if spec_eat(b, pos, stage_token(other)) is Some {
            assert(b.subrange(pos, pos + stage_token(other).len())[0] == stage_token(other)[0]);
            assert(b[pos] == stage_token(other)[0]);
        }
    }
}

/// The key line of a block: label, fixed-width key, line break.
#[verifier::rlimit(60)]
proof fn lemma_line_key(b: Seq<u8>, pos: int, k: u32, rest: Seq<u8>)
    requires
        0 <= pos <= b.len(),
        b.subrange(pos, b.len() as int) == key_label() + dec_digits(k as int, 20) + nl() + rest,
    ensures
        spec_eat(b, pos, key_label()) == Some(pos + 5),
        spec_parse_dec(b, pos + 5) == Some((k as int, pos + 25)),
        spec_eat(b, pos + 25, nl()) == Some(pos + 26),
        b.subrange(pos + 26, b.len() as int) == rest,
{
    lemma_pow10_width();
    let s1 = dec_digits(k as int, 20) + nl() + rest;
    assert(b.subrange(pos, b.len() as int) =~= key_label() + s1);
    lemma_eat_at(b, pos, key_label(), s1);
    let s2 = nl() + rest;
    assert(b.subrange(pos + 5, b.len() as int) =~= dec_digits(k as int, 20) + s2);
    lemma_dec_at(b, pos + 5, k as int, s2);
    lemma_eat_at(b, pos + 25, nl(), rest);
}

/// A text line of a block: label, length-prefixed bytes, line break.
#[verifier::rlimit(60)]
proof fn lemma_line_text(b: Seq<u8>, pos: int, lab: Seq<u8>, s: Seq<char>, rest: Seq<u8>)
    requires
        0 <= pos <= b.len(),
        encode_utf8(s).len() < pow10(20),
        b.subrange(pos, b.len() as int) == lab + len_field(encode_utf8(s)) + nl() + rest,
    ensures
        spec_eat(b, pos, lab) == Some(pos + lab.len()),
        spec_parse_text(b, pos + lab.len()) == Some(
            (s, pos + lab.len() + 21 + encode_utf8(s).len()),
        ),
        spec_eat(b, pos + lab.len() + 21 + encode_utf8(s).len(), nl()) == Some(
            pos + lab.len() + 22 + encode_utf8(s).len(),
        ),
        b.subrange(pos + lab.len() + 22 + encode_utf8(s).len(), b.len() as int) == rest,
{
    let s1 = len_field(encode_utf8(s)) + nl() + rest;
    assert(b.subrange(pos, b.len() as int) =~= lab + s1);
    lemma_eat_at(b, pos, lab, s1);
    let p1 = pos + lab.len();
    let s2 = nl() + rest;
    assert(b.subrange(p1, b.len() as int) =~= len_field(encode_utf8(s)) + s2);
    lemma_text_at(b, p1, s, s2);
    let p2 = p1 + 21 + encode_utf8(s).len();
    lemma_eat_at(b, p2, nl(), rest);
}

/// The stage line of a block: label, stage name, line break.
#[verifier::rlimit(60)]
proof fn lemma_line_stage(b: Seq<u8>, pos: int, st: DownloadStage, rest: Seq<u8>)
    requires
        0 <= pos <= b.len(),
        b.subrange(pos, b.len() as int) == stage_label() + stage_token(st) + nl() + rest,
    ensures
        spec_eat(b, pos, stage_label()) == Some(pos + 16),
        spec_parse_stage(b, pos + 16) == Some((st, pos + 16 + stage_token(st).len())),
        spec_eat(b, pos + 16 + stage_token(st).len(), nl()) == Some(
            pos + 17 + stage_token(st).len(),
        ),
        b.subrange(pos + 17 + stage_token(st).len(), b.len() as int) == rest,
{
    let s1 = stage_token(st) + nl() + rest;
    assert(b.subrange(pos, b.len() as int) =~= stage_label() + s1);
    lemma_eat_at(b, pos, stage_label(), s1);
    let p1 = pos + 16;
    assert(b.subrange(p1, b.len() as int) =~= stage_token(st) + nl() + rest);
    lemma_stage_at(b, p1, st, rest);
    let p2 = p1 + stage_token(st).len();
    assert(b.subrange(p2, b.len() as int) =~= nl() + rest);
    lemma_eat_at(b, p2, nl(), rest);
}

/// When the input from `pos` on reads one serialized record block then
/// `rest`, the block parser returns exactly that record and leaves
/// `rest`.
#[verifier::rlimit(100)]
proof fn lemma_entry_at(b: Seq<u8>, pos: int, k: u32, r: RecordV, rest: Seq<u8>)
    requires
        0 <= pos <= b.len(),
        record_fits(r),
        b.subrange(pos, b.len() as int) == entry_bytes(k, r) + rest,
    ensures
        spec_parse_entry(b, pos) == Some(((k, r), pos + entry_bytes(k, r).len())),
        b.subrange(pos + entry_bytes(k, r).len(), b.len() as int) == rest,
{
    let nb = encode_utf8(r.file_name);
    let ub = encode_utf8(r.url);
    let tok = stage_token(r.stage_download);
    lemma_pow10_width();

    let after_key = name_label() + len_field(nb) + nl() + url_label() + len_field(ub) + nl()
        + stage_label() + tok + nl() + rest;
    assert(b.subrange(pos, b.len() as int) =~= key_label() + dec_digits(k as int, 20) + nl()
        + after_key);
    lemma_line_key(b, pos, k, after_key);
    let p_name = pos + 26;

    let after_name = url_label() + len_field(ub) + nl() + stage_label() + tok + nl() + rest;
    assert(b.subrange(p_name, b.len() as int) =~= name_label() + len_field(nb) + nl()
        + after_name);
    lemma_line_text(b, p_name, name_label(), r.file_name, after_name);
    let p_url = p_name + 11 + 21 + nb.len() + 1;

    let after_url = stage_label() + tok + nl() + rest;
    assert(b.subrange(p_url, b.len() as int) =~= url_label() + len_field(ub) + nl() + after_url);
    lemma_line_text(b, p_url, url_label(), r.url, after_url);
    let p_stage = p_url + 5 + 21 + ub.len() + 1;

    assert(b.subrange(p_stage, b.len() as int) =~= stage_label() + tok + nl() + rest);
    lemma_line_stage(b, p_stage, r.stage_download, rest);
    let p_end = p_stage + 17 + tok.len();

    assert(entry_bytes(k, r).len() == 26 + 33 + nb.len() + 27 + ub.len() + 17 + tok.len());
    assert(spec_parse_entry(b, pos) == Some(((k, r), p_end)));
}

/// When the input from `pos` on is exactly the serialization of
/// `entries`, parsing from `pos` yields `entries`.
#[verifier::rlimit(60)]
proof fn lemma_entries_at(b: Seq<u8>, pos: int, entries: Seq<(u32, RecordV)>)
    requires
        0 <= pos <= b.len(),
        entries_fit(entries),
        b.subrange(pos, b.len() as int) == store_bytes(entries),
    ensures
        spec_parse_entries(b, pos) == Some(entries),
    decreases entries.len(),
{
    if entries.len() == 0 {
        assert(b.len() - pos == store_bytes(entries).len());
        assert(pos == b.len());
    } else {
        let e = entries[0];
        let tail = entries.drop_first();
        assert(b.subrange(pos, b.len() as int) == entry_bytes(e.0, e.1) + store_bytes(tail));
        lemma_entry_at(b, pos, e.0, e.1, store_bytes(tail));
        let np = pos + entry_bytes(e.0, e.1).len();
        assert(entry_bytes(e.0, e.1).len() >= 5) by {
            assert(entry_bytes(e.0, e.1)[0] == key_label()[0]);
        }
        assert(entries_fit(tail)) by {
            assert(forall|i: int| 0 <= i < tail.len() ==> tail[i] == entries[i + 1]);
        }
        lemma_entries_at(b, np, tail);
        assert(seq![e] + tail =~= entries);
    }
}

/// Round trip of the codec: parsing what [`store_bytes`] produced
/// restores the entries exactly — same keys, same records, same order.
pub proof fn lemma_store_roundtrip(entries: Seq<(u32, RecordV)>)
    requires
        entries_fit(entries),
    ensures
        spec_parse_entries(store_bytes(entries), 0) == Some(entries),
{
    let b = store_bytes(entries);
    assert(b.subrange(0, b.len() as int) =~= b);
    lemma_entries_at(b, 0, entries);
}


/// What loading file bytes yields: the parsed entries, provided their
/// keys are strictly ascending; otherwise nothing.
pub open spec fn spec_load(b: Seq<u8>) -> Option<Seq<(u32, RecordV)>> {
    match spec_parse_entries(b, 0) {
        None => None,
        Some(es) => if sorted_keys(es) {
            Some(es)
        } else {
            None
        },
    }
}

/// Save/load round trip: the bytes a well-formed store serializes to
/// load back as exactly the same entries — same key set, same records,
/// same order.
pub proof fn lemma_save_load_roundtrip(s: StoreV)
    requires
        s.wf(),
        entries_fit(s.entries),
    ensures
        spec_load(store_bytes(s.entries)) == Some(s.entries),
{
    lemma_store_roundtrip(s.entries);
}


} // verus!
