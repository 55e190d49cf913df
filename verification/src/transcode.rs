//! Archive transcoder: walks a newc archive's entry sequence, discards the
//! terminating sentinel, and re-emits every real entry byte-for-byte; the
//! driver concatenates several inputs this way and ends the combined output
//! with exactly one freshly synthesized sentinel.

use vstd::prelude::*;
use crate::codec::{
    CpioError, Header, content_padding, encode_sentinel, hex_field_valid, hex_value, is_sentinel,
    magic_ok, name_padding, sentinel_name_region, spec_content_padding, spec_is_sentinel,
    spec_name_padding, spec_sentinel_header, spec_sentinel_name_region,
};

verus! {

/// What transcoding one input archive yields: the concatenation of the raw
/// bytes of every real entry (header, padded name region and padded content
/// region, all verbatim), the sentinel and anything after it dropped; or the
/// first error met while walking the entry sequence.
pub open spec fn spec_transcode(s: Seq<u8>) -> Result<Seq<u8>, CpioError>
    decreases s.len(),
{
    if s.len() < 110 {
        Err(CpioError::Truncated)
    } else if !magic_ok(s.subrange(0, 6)) {
        Err(CpioError::Framing)
    } else if !hex_field_valid(s.subrange(94, 102)) {
        Err(CpioError::BadHex)
    } else {
        let n = hex_value(s.subrange(94, 102)) as int;
        let name_end = 110 + n + spec_name_padding(n);
        if s.len() < name_end {
            Err(CpioError::Truncated)
        } else if spec_is_sentinel(n, s.subrange(110, name_end)) {
            Ok(Seq::empty())
        } else if !hex_field_valid(s.subrange(54, 62)) {
            Err(CpioError::BadHex)
        } else {
            let f = hex_value(s.subrange(54, 62)) as int;
            let total = name_end + f + spec_content_padding(f);
            if s.len() < total {
                Err(CpioError::Truncated)
            } else {
                match spec_transcode(s.subrange(total, s.len() as int)) {
                    Ok(e) => Ok(s.subrange(0, total) + e),
                    Err(x) => Err(x),
                }
            }
        }
    }
}

/// The surviving entry bytes of an archive, empty if it does not transcode.
pub open spec fn transcoded_entries(s: Seq<u8>) -> Seq<u8> {
    match spec_transcode(s) {
        Ok(e) => e,
        Err(_) => Seq::empty(),
    }
}

/// Transcode one input archive into the shared output sink.
///
/// On success the output has grown by exactly the bytes of the input's real
/// entries, in order and verbatim; on any error the output is unchanged and
/// the error tells what the spec-level walk met first.
#[verifier::rlimit(50)]
pub fn transcode_archive(input: &[u8], output: &mut Vec<u8>) -> (r: Result<(), CpioError>)
    ensures
        (match spec_transcode(input@) {
            Ok(e) => r == Ok::<(), CpioError>(()) && final(output)@ == old(output)@ + e,
            Err(x) => r == Err::<(), CpioError>(x) && final(output)@ == old(output)@,
        }),
{
    let len = input.len();
    let mut staged: Vec<u8> = Vec::new();
    let mut pos: usize = 0;
    proof {
        assert(input@.subrange(0, len as int) =~= input@);
        match spec_transcode(input@) {
            Ok(e) => {
                assert(staged@ + e =~= e);
            },
            Err(_) => {},
        }
    }
    loop
        invariant
            pos <= len,
            len == input@.len(),
            output@ == old(output)@,
            (match spec_transcode(input@.subrange(pos as int, len as int)) {
                Ok(e) => spec_transcode(input@) == Ok::<Seq<u8>, CpioError>(staged@ + e),
                Err(x) => spec_transcode(input@) == Err::<Seq<u8>, CpioError>(x),
            }),
        decreases len - pos,
    {
        let ghost rest = input@.subrange(pos as int, len as int);
        if len - pos < 110 {
            return Err(CpioError::Truncated);
        }
        let header_slice = vstd::slice::slice_subrange(input, pos, pos + 110);
        proof {
            assert(header_slice@.subrange(0, 6) =~= rest.subrange(0, 6));
        }
        let header = match Header::decode(header_slice) {
            Ok(h) => h,
            Err(e) => {
                return Err(e);
            },
        };
        proof {
            assert(header.bytes@.subrange(94, 102) =~= rest.subrange(94, 102));
            assert(header.bytes@.subrange(54, 62) =~= rest.subrange(54, 62));
        }
        let ns = match header.namesize() {
            Ok(v) => v,
            Err(e) => {
                return Err(e);
            },
        };
        proof {
            crate::codec::lemma_hex_value_bound(rest.subrange(94, 102));
            crate::codec::lemma_pow16_values();
            assert(ns as nat == hex_value(rest.subrange(94, 102)));
        }
        let np = name_padding(ns);
        let ghost n = ns as int;
        let ghost spec_name_end = 110 + n + spec_name_padding(n);
        let name_region_len: u64 = 110u64 + ns as u64 + np as u64;
        if ((len - pos) as u64) < name_region_len {
            return Err(CpioError::Truncated);
        }
        assert(name_region_len <= (len - pos) as u64);
        let name_end: usize = pos + name_region_len as usize;
        assert(name_end as int == pos as int + spec_name_end);
        let name_region = vstd::slice::slice_subrange(input, pos + 110, name_end);
        proof {
            assert(name_region@ =~= rest.subrange(110, spec_name_end));
        }
        if is_sentinel(ns, name_region) {
            proof {
                assert(spec_transcode(rest) == Ok::<Seq<u8>, CpioError>(Seq::<u8>::empty()));
                assert(staged@ + Seq::<u8>::empty() =~= staged@);
            }
            output.append(&mut staged);
            return Ok(());
        }
        let fs = match header.filesize() {
            Ok(v) => v,
            Err(e) => {
                return Err(e);
            },
        };
        proof {
            crate::codec::lemma_hex_value_bound(rest.subrange(54, 62));
            crate::codec::lemma_pow16_values();
            assert(fs as nat == hex_value(rest.subrange(54, 62)));
        }
        let fp = content_padding(fs);
        let ghost f = fs as int;
        let ghost spec_total = spec_name_end + f + spec_content_padding(f);
        let total_u64: u64 = name_region_len + fs as u64 + fp as u64;
        if ((len - pos) as u64) < total_u64 {
            return Err(CpioError::Truncated);
        }
        let total: usize = total_u64 as usize;
        assert(total as int == spec_total);
        let ghost staged_snap = staged@;
        let mut j: usize = 0;
        while j < total
            invariant
                j <= total,
                pos + total <= len == input@.len(),
                staged@ == staged_snap + input@.subrange(pos as int, pos as int + j),
            decreases total - j,
        {
            let b = input[pos + j];
            staged.push(b);
            proof {
                assert(staged@ =~= staged_snap + input@.subrange(pos as int, pos as int + j + 1));
            }
            j += 1;
        }
        proof {
            let frame = rest.subrange(0, spec_total);
            let rest2 = input@.subrange(pos as int + spec_total, len as int);
            assert(rest.subrange(spec_total, rest.len() as int) =~= rest2);
            assert(input@.subrange(pos as int, pos as int + total as int) =~= frame);
            match spec_transcode(rest2) {
                Ok(e) => {
                    assert(spec_transcode(rest) == Ok::<Seq<u8>, CpioError>(frame + e));
                    assert((staged_snap + frame) + e =~= staged_snap + (frame + e));
                },
                Err(x) => {
                    assert(spec_transcode(rest) == Err::<Seq<u8>, CpioError>(x));
                },
            }
        }
        pos = pos + total;
    }
}

/// What the driver yields for a sequence of input archives: the surviving
/// entries of every input, in input order; or the first error met.
pub open spec fn spec_concat_entries(inputs: Seq<Seq<u8>>) -> Result<Seq<u8>, CpioError>
    decreases inputs.len(),
{
    if inputs.len() == 0 {
        Ok(Seq::empty())
    } else {
        match spec_transcode(inputs[0]) {
            Ok(e) => match spec_concat_entries(inputs.drop_first()) {
                Ok(later) => Ok(e + later),
                Err(x) => Err(x),
            },
            Err(x) => Err(x),
        }
    }
}

/// The combined output archive: every input's surviving entries in input
/// order, closed by one synthesized no-checksum sentinel (its header and its
/// 16-byte name region); or the first error met.
pub open spec fn spec_concat(inputs: Seq<Seq<u8>>) -> Result<Seq<u8>, CpioError> {
    match spec_concat_entries(inputs) {
        Ok(e) => Ok(e + spec_sentinel_header(false) + spec_sentinel_name_region()),
        Err(x) => Err(x),
    }
}

/// Concatenate input archives into one combined newc archive.
///
/// Runs the transcoder once per input, in the order given, against one shared
/// output, then ends the output with exactly one synthesized sentinel. On the
/// first error the run stops and nothing is returned.
pub fn concat_archives(inputs: &Vec<Vec<u8>>) -> (r: Result<Vec<u8>, CpioError>)
    ensures
        (match spec_concat(inputs@.map_values(|v: Vec<u8>| v@)) {
            Ok(o) => r matches Ok(v) && v@ == o,
            Err(x) => r == Err::<Vec<u8>, CpioError>(x),
        }),
{
    let ghost views = inputs@.map_values(|v: Vec<u8>| v@);
    let mut out: Vec<u8> = Vec::new();
    let mut i: usize = 0;
    proof {
        assert(views.skip(0) =~= views);
        match spec_concat_entries(views) {
            Ok(e) => {
                assert(out@ + e =~= e);
            },
            Err(_) => {},
        }
    }
    while i < inputs.len()
        invariant
            i <= inputs@.len(),
            views == inputs@.map_values(|v: Vec<u8>| v@),
            (match spec_concat_entries(views.skip(i as int)) {
                Ok(e) => spec_concat_entries(views) == Ok::<Seq<u8>, CpioError>(out@ + e),
                Err(x) => spec_concat_entries(views) == Err::<Seq<u8>, CpioError>(x),
            }),
        decreases inputs@.len() - i,
    {
        let ghost out_snap = out@;
        let ghost remaining = views.skip(i as int);
        proof {
            assert(remaining[0] == views[i as int]);
            assert(remaining.drop_first() =~= views.skip(i as int + 1));
        }
        match transcode_archive(inputs[i].as_slice(), &mut out) {
            Ok(()) => {},
            Err(e) => {
                return Err(e);
            },
        }
        proof {
            match spec_transcode(views[i as int]) {
                Ok(e0) => {
                    match spec_concat_entries(views.skip(i as int + 1)) {
                        Ok(later) => {
                            assert((out_snap + e0) + later =~= out_snap + (e0 + later));
                        },
                        Err(_) => {},
                    }
                },
                Err(_) => {},
            }
        }
        i += 1;
    }
    proof {
        assert(views.skip(i as int) =~= Seq::<Seq<u8>>::empty());
        assert(out@ + Seq::<u8>::empty() =~= out@);
    }
    let ghost entries = out@;
    let mut sentinel_header = encode_sentinel(false);
    out.append(&mut sentinel_header);
    let mut sentinel_name = sentinel_name_region();
    out.append(&mut sentinel_name);
    proof {
        assert(out@ =~= entries + spec_sentinel_header(false) + spec_sentinel_name_region());
    }
    Ok(out)
}

/// Indices of the inputs that are not present, in increasing order.
///
/// The driver checks every input before any processing starts, so that each
/// missing path can be reported, and reports them all.
pub fn missing_indices(present: &Vec<bool>) -> (r: Vec<usize>)
    ensures
        forall|k: int|
            0 <= k < r@.len() ==> #[trigger] r@[k] < present@.len() && !present@[r@[k] as int],
        forall|i: int| 0 <= i < present@.len() && !present@[i] ==> r@.contains(i as usize),
        forall|k: int| 0 <= k < r@.len() - 1 ==> #[trigger] r@[k] < r@[k + 1],
{
    let mut r: Vec<usize> = Vec::new();
    let mut i: usize = 0;
    while i < present.len()
        invariant
            i <= present@.len(),
            forall|k: int| 0 <= k < r@.len() ==> #[trigger] r@[k] < i && !present@[r@[k] as int],
            forall|j: int| 0 <= j < i && !present@[j] ==> r@.contains(j as usize),
            forall|k: int| 0 <= k < r@.len() - 1 ==> #[trigger] r@[k] < r@[k + 1],
        decreases present@.len() - i,
    {
        if !present[i] {
            let ghost r_snap = r@;
            r.push(i);
            proof {
                assert(r@.last() == i);
                assert forall|j: int| 0 <= j < i + 1 && !present@[j] implies r@.contains(
                    j as usize,
                ) by {
                    if j < i {
                        let k = choose|k: int| 0 <= k < r_snap.len() && r_snap[k] == j as usize;
                        assert(r@[k] == j as usize);
                    } else {
                        assert(r@[r@.len() - 1] == j as usize);
                    }
                }
            }
        }
        i += 1;
    }
    r
}

/// The surviving entries of a sequence of inputs, empty on error.
pub open spec fn concatenated_entries(inputs: Seq<Seq<u8>>) -> Seq<u8> {
    match spec_concat_entries(inputs) {
        Ok(e) => e,
        Err(_) => Seq::empty(),
    }
}

/// The combined output archive, empty on error.
pub open spec fn combined_output(inputs: Seq<Seq<u8>>) -> Seq<u8> {
    match spec_concat(inputs) {
        Ok(o) => o,
        Err(_) => Seq::empty(),
    }
}

/// Law (round-trip passthrough): transcoding a well-formed archive reproduces
/// its real entries byte-for-byte — the output is exactly the input's own
/// prefix up to the start of its sentinel, headers, name regions and content
/// regions included, padding and all.
pub proof fn lemma_passthrough_prefix(s: Seq<u8>)
    requires
        spec_transcode(s) is Ok,
    ensures
        transcoded_entries(s).len() <= s.len(),
        transcoded_entries(s) == s.subrange(0, transcoded_entries(s).len() as int),
    decreases s.len(),
{
    let e = transcoded_entries(s);
    if s.len() >= 110 && magic_ok(s.subrange(0, 6)) && hex_field_valid(s.subrange(94, 102)) {
        let n = hex_value(s.subrange(94, 102)) as int;
        let name_end = 110 + n + spec_name_padding(n);
        assert(0 <= (110 + n) % 4 < 4);
        if s.len() >= name_end {
            if spec_is_sentinel(n, s.subrange(110, name_end)) {
                assert(e =~= s.subrange(0, 0));
            } else if hex_field_valid(s.subrange(54, 62)) {
                let f = hex_value(s.subrange(54, 62)) as int;
                let total = name_end + f + spec_content_padding(f);
                assert(0 <= f % 4 < 4);
                if s.len() >= total {
                    let s2 = s.subrange(total, s.len() as int);
                    lemma_passthrough_prefix(s2);
                    let e2 = transcoded_entries(s2);
                    assert(e == s.subrange(0, total) + e2);
                    assert(e =~= s.subrange(0, total + e2.len()));
                }
            }
        }
    }
}

/// Parsing a stream that starts with a well-formed archive's surviving
/// entries consumes exactly those entries, whatever follows them: the frames
/// are self-delimiting, so the rest of the stream is parsed independently.
pub proof fn lemma_transcode_extend(s: Seq<u8>, t: Seq<u8>)
    requires
        spec_transcode(s) is Ok,
    ensures
        spec_transcode(transcoded_entries(s) + t) == (match spec_transcode(t) {
            Ok(u) => Ok::<Seq<u8>, CpioError>(transcoded_entries(s) + u),
            Err(x) => Err::<Seq<u8>, CpioError>(x),
        }),
    decreases s.len(),
{
    let e = transcoded_entries(s);
    if s.len() >= 110 && magic_ok(s.subrange(0, 6)) && hex_field_valid(s.subrange(94, 102)) {
        let n = hex_value(s.subrange(94, 102)) as int;
        let name_end = 110 + n + spec_name_padding(n);
        assert(0 <= (110 + n) % 4 < 4);
        if s.len() >= name_end {
            if spec_is_sentinel(n, s.subrange(110, name_end)) {
                assert(e + t =~= t);
                match spec_transcode(t) {
                    Ok(u) => {
                        assert(e + u =~= u);
                    },
                    Err(_) => {},
                }
            } else if hex_field_valid(s.subrange(54, 62)) {
                let f = hex_value(s.subrange(54, 62)) as int;
                let total = name_end + f + spec_content_padding(f);
                assert(0 <= f % 4 < 4);
                if s.len() >= total {
                    let s2 = s.subrange(total, s.len() as int);
                    let frame = s.subrange(0, total);
                    let e2 = transcoded_entries(s2);
                    assert(e == frame + e2);
                    lemma_transcode_extend(s2, t);
                    let w = e + t;
                    assert(w.len() >= total >= 110);
                    assert(w.subrange(0, 6) =~= s.subrange(0, 6));
                    assert(w.subrange(94, 102) =~= s.subrange(94, 102));
                    assert(w.subrange(110, name_end) =~= s.subrange(110, name_end));
                    assert(w.subrange(54, 62) =~= s.subrange(54, 62));
                    assert(w.subrange(total, w.len() as int) =~= e2 + t);
                    assert(w.subrange(0, total) =~= frame);
                    assert(spec_transcode(w) == (match spec_transcode(e2 + t) {
                        Ok(u2) => Ok::<Seq<u8>, CpioError>(frame + u2),
                        Err(x) => Err::<Seq<u8>, CpioError>(x),
                    }));
                    match spec_transcode(t) {
                        Ok(u) => {
                            assert(frame + (e2 + u) =~= (frame + e2) + u);
                        },
                        Err(_) => {},
                    }
                }
            }
        }
    }
}

/// The synthesized tail of the combined output — the sentinel header and its
/// 16-byte name region — parses as an archive with no real entries.
pub proof fn lemma_sentinel_tail_parses()
    ensures
        spec_transcode(spec_sentinel_header(false) + spec_sentinel_name_region()) == Ok::<
            Seq<u8>,
            CpioError,
        >(Seq::<u8>::empty()),
{
    let w = spec_sentinel_header(false) + spec_sentinel_name_region();
    assert(w.len() == 126);
    assert(w.subrange(0, 6) =~= seq![0x30u8, 0x37u8, 0x30u8, 0x37u8, 0x30u8, 0x31u8]);
    assert(magic_ok(w.subrange(0, 6)));
    let nf = w.subrange(94, 102);
    assert(forall|i: int| 0 <= i < 7 ==> #[trigger] nf[i] == 0x30);
    assert(nf[7] == 0x62);
    assert(hex_field_valid(nf));
    assert(forall|i: int| 0 <= i < nf.drop_last().len() ==> #[trigger] nf.drop_last()[i] == 0x30);
    crate::codec::lemma_hex_value_zeros(nf.drop_last());
    assert(crate::codec::hex_digit_value(0x62) == 11);
    assert(hex_value(nf) == 11);
    assert(spec_name_padding(11) == 3);
    let region = w.subrange(110, 124);
    assert(region.subrange(0, 11) =~= crate::codec::trailer_name());
    assert(spec_is_sentinel(11, region));
}

/// Parsing a stream that starts with the surviving entries of a whole
/// sequence of inputs consumes exactly those entries.
pub proof fn lemma_entries_then_tail(inputs: Seq<Seq<u8>>, tail: Seq<u8>)
    requires
        spec_concat_entries(inputs) is Ok,
    ensures
        spec_transcode(concatenated_entries(inputs) + tail) == (match spec_transcode(tail) {
            Ok(u) => Ok::<Seq<u8>, CpioError>(concatenated_entries(inputs) + u),
            Err(x) => Err::<Seq<u8>, CpioError>(x),
        }),
    decreases inputs.len(),
{
    let es = concatenated_entries(inputs);
    if inputs.len() == 0 {
        assert(es + tail =~= tail);
        match spec_transcode(tail) {
            Ok(u) => {
                assert(es + u =~= u);
            },
            Err(_) => {},
        }
    } else {
        let e0 = transcoded_entries(inputs[0]);
        let later = concatenated_entries(inputs.drop_first());
        assert(es == e0 + later);
        lemma_entries_then_tail(inputs.drop_first(), tail);
        lemma_transcode_extend(inputs[0], later + tail);
        assert(es + tail =~= e0 + (later + tail));
        match spec_transcode(tail) {
            Ok(u) => {
                assert(e0 + (later + u) =~= (e0 + later) + u);
            },
            Err(_) => {},
        }
    }
}

/// Law (single sentinel, at the very end): whatever number of input archives
/// were combined — each one's own sentinel discarded — the output parses as
/// one well-formed archive whose real entries are exactly every input's
/// surviving entries in input order, and whose sole sentinel begins exactly
/// 126 bytes before the end, nothing after it.
pub proof fn lemma_combined_output_sound(inputs: Seq<Seq<u8>>)
    requires
        spec_concat_entries(inputs) is Ok,
    ensures
        spec_concat(inputs) is Ok,
        spec_transcode(combined_output(inputs)) == Ok::<Seq<u8>, CpioError>(
            concatenated_entries(inputs),
        ),
        combined_output(inputs).len() == concatenated_entries(inputs).len() + 126,
        concatenated_entries(inputs) == combined_output(inputs).subrange(
            0,
            combined_output(inputs).len() - 126,
        ),
{
    let es = concatenated_entries(inputs);
    let tail = spec_sentinel_header(false) + spec_sentinel_name_region();
    lemma_sentinel_tail_parses();
    lemma_entries_then_tail(inputs, tail);
    assert(combined_output(inputs) =~= es + tail);
    assert(es + Seq::<u8>::empty() =~= es);
    assert(es =~= combined_output(inputs).subrange(0, combined_output(inputs).len() - 126));
}

/// Law (concatenation order): combining archives `a` then `b` yields a's
/// surviving entries, then b's, then the one synthesized sentinel, in that
/// exact order with nothing interleaved.
pub proof fn lemma_concatenation_order(a: Seq<u8>, b: Seq<u8>)
    requires
        spec_transcode(a) is Ok,
        spec_transcode(b) is Ok,
    ensures
        spec_concat(seq![a, b]) == Ok::<Seq<u8>, CpioError>(
            transcoded_entries(a) + transcoded_entries(b) + spec_sentinel_header(false)
                + spec_sentinel_name_region(),
        ),
{
    let pair = seq![a, b];
    assert(pair[0] == a);
    assert(pair.drop_first() =~= seq![b]);
    assert(seq![b][0] == b);
    assert(seq![b].drop_first() =~= Seq::<Seq<u8>>::empty());
    let eb = transcoded_entries(b);
    assert(spec_concat_entries(Seq::<Seq<u8>>::empty()) == Ok::<Seq<u8>, CpioError>(
        Seq::<u8>::empty(),
    ));
    assert(spec_concat_entries(seq![b]) == Ok::<Seq<u8>, CpioError>(eb + Seq::<u8>::empty()));
    assert(eb + Seq::<u8>::empty() =~= eb);
    assert(spec_concat_entries(pair) == Ok::<Seq<u8>, CpioError>(transcoded_entries(a) + eb));
}

} // verus!
