//! Rendering one execution result as a block of lines.
//!
//! The captured standard-error and standard-output byte streams are split
//! into lines, each line is decoded as text (a line that is not valid text
//! becomes a fixed placeholder diagnostic instead of being dropped), and
//! the whole result becomes one contiguous block of display lines whose
//! first line carries the terminal reset sequence — so stale output is
//! cleared exactly once per execution, even when the result is empty.

use crate::model::strings_view;
use vstd::prelude::*;
use vstd::string::StringExecFns;
use vstd::utf8::decode_utf8;
use vstd::utf8::valid_utf8;

verus! {

/// The view of a sequence of byte vectors: each element as its byte sequence.
pub open spec fn bytes_view(v: Seq<Vec<u8>>) -> Seq<Seq<u8>> {
    v.map_values(|l: Vec<u8>| l@)
}

proof fn lemma_bytes_view_push(v: Seq<Vec<u8>>, x: Vec<u8>)
    ensures
        bytes_view(v.push(x)) == bytes_view(v).push(x@),
{
    assert forall|k: int| 0 <= k < v.len() + 1 implies #[trigger] bytes_view(v.push(x))[k]
        == bytes_view(v).push(x@)[k] by {
        if k < v.len() {
            assert(v.push(x)[k] == v[k]);
        } else {
            assert(v.push(x)[k] == x);
        }
    }
    assert(bytes_view(v.push(x)) =~= bytes_view(v).push(x@));
}

/// The terminal control sequence that clears the screen and homes the
/// cursor: the only control code this core emits.
pub open spec fn reset_view() -> Seq<char> {
    "\x1B[2J\x1B[1;1H"@
}

/// The reset sequence as a string slice.
pub fn reset_str() -> (s: &'static str)
    ensures
        s@ == reset_view(),
{
    "\x1B[2J\x1B[1;1H"
}

/// The line segments of a captured byte stream: segments end at a newline
/// byte or at a carriage return directly followed by a newline; a non-empty
/// trailing segment without a terminator is a segment of its own.
pub open spec fn raw_lines(bytes: Seq<u8>) -> Seq<Seq<u8>>
    decreases bytes.len(),
{
    if bytes.len() == 0 {
        seq![]
    } else if bytes[0] == 10 {
        seq![Seq::<u8>::empty()] + raw_lines(bytes.subrange(1, bytes.len() as int))
    } else if bytes.len() >= 2 && bytes[0] == 13 && bytes[1] == 10 {
        seq![Seq::<u8>::empty()] + raw_lines(bytes.subrange(2, bytes.len() as int))
    } else {
        let rest = raw_lines(bytes.subrange(1, bytes.len() as int));
        if rest.len() == 0 {
            seq![seq![bytes[0]]]
        } else {
            seq![seq![bytes[0]] + rest[0]] + rest.drop_first()
        }
    }
}

/// The line segments still to come when `cur` holds the bytes of a started,
/// unterminated segment and `rest` is the unread part of the stream.
pub open spec fn tail_lines(cur: Seq<u8>, rest: Seq<u8>) -> Seq<Seq<u8>> {
    let r = raw_lines(rest);
    if r.len() == 0 {
        if cur.len() == 0 {
            seq![]
        } else {
            seq![cur]
        }
    } else {
        seq![cur + r[0]] + r.drop_first()
    }
}

proof fn lemma_tail_fresh(rest: Seq<u8>)
    ensures
        tail_lines(Seq::empty(), rest) == raw_lines(rest),
{
    let r = raw_lines(rest);
    if r.len() == 0 {
        assert(tail_lines(Seq::empty(), rest) =~= r);
    } else {
        assert(Seq::<u8>::empty() + r[0] =~= r[0]);
        assert(tail_lines(Seq::empty(), rest) =~= r);
    }
}

proof fn lemma_tail_newline(cur: Seq<u8>, rest: Seq<u8>)
    requires
        rest.len() > 0,
        rest[0] == 10,
    ensures
        tail_lines(cur, rest) == seq![cur] + raw_lines(rest.subrange(1, rest.len() as int)),
{
    let tail = raw_lines(rest.subrange(1, rest.len() as int));
    assert(raw_lines(rest) == seq![Seq::<u8>::empty()] + tail);
    assert(raw_lines(rest)[0] == Seq::<u8>::empty());
    assert(cur + Seq::<u8>::empty() =~= cur);
    assert(raw_lines(rest).drop_first() =~= tail);
    assert(tail_lines(cur, rest) =~= seq![cur] + tail);
}

proof fn lemma_tail_crlf(cur: Seq<u8>, rest: Seq<u8>)
    requires
        rest.len() >= 2,
        rest[0] == 13,
        rest[1] == 10,
    ensures
        tail_lines(cur, rest) == seq![cur] + raw_lines(rest.subrange(2, rest.len() as int)),
{
    let tail = raw_lines(rest.subrange(2, rest.len() as int));
    assert(raw_lines(rest) == seq![Seq::<u8>::empty()] + tail);
    assert(raw_lines(rest)[0] == Seq::<u8>::empty());
    assert(cur + Seq::<u8>::empty() =~= cur);
    assert(raw_lines(rest).drop_first() =~= tail);
    assert(tail_lines(cur, rest) =~= seq![cur] + tail);
}

proof fn lemma_tail_byte(cur: Seq<u8>, rest: Seq<u8>)
    requires
        rest.len() > 0,
        rest[0] != 10,
        !(rest[0] == 13 && rest.len() >= 2 && rest[1] == 10),
    ensures
        tail_lines(cur, rest) == tail_lines(cur.push(rest[0]), rest.subrange(1, rest.len() as int)),
{
    let r2 = raw_lines(rest.subrange(1, rest.len() as int));
    if r2.len() == 0 {
        assert(raw_lines(rest) == seq![seq![rest[0]]]);
        assert(cur + seq![rest[0]] =~= cur.push(rest[0]));
        assert(tail_lines(cur, rest) =~= seq![cur.push(rest[0])]);
        assert(tail_lines(cur.push(rest[0]), rest.subrange(1, rest.len() as int)) =~= seq![cur.push(
            rest[0],
        )]);
    } else {
        assert(raw_lines(rest) == seq![seq![rest[0]] + r2[0]] + r2.drop_first());
        assert(raw_lines(rest).len() > 0);
        assert(raw_lines(rest)[0] == seq![rest[0]] + r2[0]);
        assert(cur + (seq![rest[0]] + r2[0]) =~= cur.push(rest[0]) + r2[0]);
        assert(raw_lines(rest).drop_first() =~= r2.drop_first());
        assert(tail_lines(cur, rest) =~= seq![cur.push(rest[0]) + r2[0]] + r2.drop_first());
        assert(tail_lines(cur.push(rest[0]), rest.subrange(1, rest.len() as int)) =~= seq![cur.push(
            rest[0],
        ) + r2[0]] + r2.drop_first());
    }
}

/// Splits a captured byte stream into its line segments: a segment ends at
/// a newline, or at a carriage return directly followed by a newline; a
/// non-empty trailing segment is kept.
pub fn split_lines(out: &[u8]) -> (r: Vec<Vec<u8>>)
    ensures
        bytes_view(r@) == raw_lines(out@),
{
    let n = out.len();
    let mut done: Vec<Vec<u8>> = Vec::new();
    let mut cur: Vec<u8> = Vec::new();
    let mut i: usize = 0;
    proof {
        assert(out@.subrange(0, n as int) =~= out@);
        lemma_tail_fresh(out@);
        assert(bytes_view(done@) + tail_lines(cur@, out@) =~= raw_lines(out@));
    }
    while i < n
        invariant
            i <= n,
            n == out@.len(),
            raw_lines(out@) == bytes_view(done@) + tail_lines(
                cur@,
                out@.subrange(i as int, n as int),
            ),
        decreases n - i,
    {
        let ghost rest = out@.subrange(i as int, n as int);
        proof {
            assert(rest[0] == out@[i as int]);
        }
        let b = out[i];
        if b == 10 {
            proof {
                lemma_tail_newline(cur@, rest);
                assert(rest.subrange(1, rest.len() as int) =~= out@.subrange(i + 1, n as int));
                lemma_tail_fresh(out@.subrange(i + 1, n as int));
                lemma_bytes_view_push(done@, cur);
                assert((bytes_view(done@) + (seq![cur@] + raw_lines(out@.subrange(i + 1, n as int))))
                    =~= (bytes_view(done@).push(cur@) + raw_lines(out@.subrange(i + 1, n as int))));
            }
            done.push(cur);
            cur = Vec::new();
            i += 1;
        } else {
            let crlf = b == 13 && i + 1 < n && out[i + 1] == 10;
            if crlf {
                proof {
                    assert(rest.len() >= 2 && rest[1] == out@[i + 1]);
                    lemma_tail_crlf(cur@, rest);
                    assert(rest.subrange(2, rest.len() as int) =~= out@.subrange(i + 2, n as int));
                    lemma_tail_fresh(out@.subrange(i + 2, n as int));
                    lemma_bytes_view_push(done@, cur);
                    assert((bytes_view(done@) + (seq![cur@] + raw_lines(
                        out@.subrange(i + 2, n as int),
                    ))) =~= (bytes_view(done@).push(cur@) + raw_lines(
                        out@.subrange(i + 2, n as int),
                    )));
                }
                done.push(cur);
                cur = Vec::new();
                i += 2;
            } else {
                proof {
                    if rest[0] == 13 && rest.len() >= 2 {
                        assert(rest[1] == out@[i + 1]);
                    }
                    lemma_tail_byte(cur@, rest);
                    assert(rest.subrange(1, rest.len() as int) =~= out@.subrange(i + 1, n as int));
                }
                cur.push(b);
                i += 1;
            }
        }
    }
    proof {
        assert(out@.subrange(n as int, n as int) =~= Seq::<u8>::empty());
        assert(raw_lines(Seq::<u8>::empty()) == Seq::<Seq<u8>>::empty());
    }
    if cur.len() > 0 {
        proof {
            lemma_bytes_view_push(done@, cur);
            assert(bytes_view(done@).push(cur@) =~= bytes_view(done@) + seq![cur@]);
        }
        done.push(cur);
    } else {
        proof {
            assert(bytes_view(done@) + Seq::<Seq<u8>>::empty() =~= bytes_view(done@));
        }
    }
    done
}

/// The placeholder shown for a line whose bytes are not valid text.
pub open spec fn invalid_line_view() -> Seq<char> {
    "(invalid utf-8 line)"@
}

/// A line segment as displayed: its decoded characters when the bytes are
/// valid text, the placeholder diagnostic otherwise.
pub open spec fn rendered_line(seg: Seq<u8>) -> Seq<char> {
    if valid_utf8(seg) {
        decode_utf8(seg)
    } else {
        invalid_line_view()
    }
}

/// Every segment of a result as displayed, in order.
pub open spec fn rendered_lines(segs: Seq<Seq<u8>>) -> Seq<Seq<char>> {
    segs.map_values(|l: Seq<u8>| rendered_line(l))
}

/// Relies on `str::from_utf8`: succeeds exactly on valid UTF-8 and yields
/// the characters the bytes encode.
#[verifier::external_body]
fn decode_bytes(seg: &[u8]) -> (r: Option<String>)
    ensures
        r is Some <==> valid_utf8(seg@),
        r matches Some(s) ==> s@ == decode_utf8(seg@),
{
    match core::str::from_utf8(seg) {
        Ok(s) => Some(s.to_owned()),
        Err(_) => None,
    }
}

/// One line segment as displayed.
pub fn render_line(seg: &Vec<u8>) -> (r: String)
    ensures
        r@ == rendered_line(seg@),
{
    match decode_bytes(seg.as_slice()) {
        Some(s) => s,
        None => "(invalid utf-8 line)".to_owned(),
    }
}

/// The block of display lines for one execution result: every
/// standard-error line, then every standard-output line, the first line of
/// the block prefixed with the reset sequence — and the reset sequence
/// alone when the result has no lines at all, so stale output is still
/// cleared.
pub open spec fn block_view(stderr: Seq<u8>, stdout: Seq<u8>) -> Seq<Seq<char>> {
    let ls = rendered_lines(raw_lines(stderr)) + rendered_lines(raw_lines(stdout));
    if ls.len() == 0 {
        seq![reset_view()]
    } else {
        seq![reset_view() + ls[0]] + ls.drop_first()
    }
}

/// Renders one execution result as its block of display lines.
pub fn render_block(stderr: &[u8], stdout: &[u8]) -> (r: Vec<String>)
    ensures
        strings_view(r@) == block_view(stderr@, stdout@),
{
    let err_lines = split_lines(stderr);
    let out_lines = split_lines(stdout);
    let ghost all = rendered_lines(raw_lines(stderr@)) + rendered_lines(raw_lines(stdout@));
    let mut flat: Vec<String> = Vec::new();
    proof {
        assert(strings_view(flat@) =~= rendered_lines(bytes_view(err_lines@)).take(0));
    }
    let mut k: usize = 0;
    while k < err_lines.len()
        invariant
            k <= err_lines@.len(),
            bytes_view(err_lines@) == raw_lines(stderr@),
            strings_view(flat@) == rendered_lines(bytes_view(err_lines@)).take(k as int),
        decreases err_lines@.len() - k,
    {
        let ghost pre = flat@;
        let line = render_line(&err_lines[k]);
        flat.push(line);
        proof {
            crate::model::lemma_strings_view_push(pre, flat@.last());
            assert(rendered_lines(bytes_view(err_lines@))[k as int] == rendered_line(
                err_lines@[k as int]@,
            ));
            assert(rendered_lines(bytes_view(err_lines@)).take(k + 1) =~~= rendered_lines(
                bytes_view(err_lines@),
            ).take(k as int).push(rendered_line(err_lines@[k as int]@)));
        }
        k += 1;
    }
    proof {
        assert(rendered_lines(raw_lines(stderr@)).take(err_lines@.len() as int) =~~= rendered_lines(
            raw_lines(stderr@),
        ));
        assert(strings_view(flat@) + rendered_lines(bytes_view(out_lines@)).take(0)
            =~= strings_view(flat@));
    }
    let ghost err_part = strings_view(flat@);
    let mut m: usize = 0;
    while m < out_lines.len()
        invariant
            m <= out_lines@.len(),
            bytes_view(out_lines@) == raw_lines(stdout@),
            strings_view(flat@) == err_part + rendered_lines(bytes_view(out_lines@)).take(m as int),
        decreases out_lines@.len() - m,
    {
        let ghost pre = flat@;
        let line = render_line(&out_lines[m]);
        flat.push(line);
        proof {
            crate::model::lemma_strings_view_push(pre, flat@.last());
            assert(rendered_lines(bytes_view(out_lines@))[m as int] == rendered_line(
                out_lines@[m as int]@,
            ));
            assert(err_part + rendered_lines(bytes_view(out_lines@)).take(m + 1)
                =~~= (err_part + rendered_lines(bytes_view(out_lines@)).take(m as int)).push(
                rendered_line(out_lines@[m as int]@),
            ));
        }
        m += 1;
    }
    proof {
        assert(rendered_lines(raw_lines(stdout@)).take(out_lines@.len() as int) =~~= rendered_lines(
            raw_lines(stdout@),
        ));
        assert(strings_view(flat@) =~~= all);
    }
    let mut r: Vec<String> = Vec::new();
    if flat.len() == 0 {
        r.push(reset_str().to_owned());
        proof {
            assert(strings_view(r@) =~~= block_view(stderr@, stdout@));
        }
    } else {
        let mut first = reset_str().to_owned();
        first.append(flat[0].as_str());
        r.push(first);
        proof {
            assert(strings_view(r@) =~~= seq![reset_view() + all[0]] + all.subrange(1, 1));
        }
        let mut t: usize = 1;
        while t < flat.len()
            invariant
                1 <= t <= flat@.len(),
                strings_view(flat@) == all,
                all.len() > 0,
                strings_view(r@) == seq![reset_view() + all[0]] + all.subrange(1, t as int),
            decreases flat@.len() - t,
        {
            let ghost pre = r@;
            let line = flat[t].clone();
            r.push(line);
            proof {
                crate::model::lemma_strings_view_push(pre, r@.last());
                assert(flat@[t as int]@ == all[t as int]);
                assert(seq![reset_view() + all[0]] + all.subrange(1, t + 1) =~~= (seq![reset_view()
                    + all[0]] + all.subrange(1, t as int)).push(all[t as int]));
            }
            t += 1;
        }
        proof {
            assert(all.subrange(1, all.len() as int) =~= all.drop_first());
            assert(strings_view(r@) =~~= block_view(stderr@, stdout@));
        }
    }
    r
}

/// The display lines of a whole session: the blocks of the results, in the
/// order the results were produced, one after another.
pub open spec fn render_all(results: Seq<(Seq<u8>, Seq<u8>)>) -> Seq<Seq<char>>
    decreases results.len(),
{
    if results.len() == 0 {
        seq![]
    } else {
        block_view(results[0].0, results[0].1) + render_all(results.drop_first())
    }
}

/// Where the block of result `i` starts among the session's display lines.
pub open spec fn block_start(results: Seq<(Seq<u8>, Seq<u8>)>, i: int) -> int
    decreases i,
{
    if i <= 0 || results.len() == 0 {
        0
    } else {
        block_view(results[0].0, results[0].1).len() + block_start(results.drop_first(), i - 1)
    }
}

/// Render atomicity: among the display lines of a whole session, the block
/// of each result stands as one contiguous run — no line of another result
/// is interleaved with it.
pub proof fn lemma_render_atomic(results: Seq<(Seq<u8>, Seq<u8>)>, i: int)
    requires
        0 <= i < results.len(),
    ensures
        0 <= block_start(results, i),
        block_start(results, i) + block_view(results[i].0, results[i].1).len() <= render_all(
            results,
        ).len(),
        render_all(results).subrange(
            block_start(results, i),
            block_start(results, i) + block_view(results[i].0, results[i].1).len() as int,
        ) == block_view(results[i].0, results[i].1),
    decreases i,
{
    let whole = render_all(results);
    let first = block_view(results[0].0, results[0].1);
    let rest = render_all(results.drop_first());
    assert(whole == first + rest);
    if i == 0 {
        assert(whole.subrange(0, first.len() as int) =~~= first);
    } else {
        lemma_render_atomic(results.drop_first(), i - 1);
        let sub = results.drop_first();
        assert(sub[i - 1] == results[i]);
        let blk = block_view(results[i].0, results[i].1);
        let off = block_start(sub, i - 1);
        assert(whole.subrange(first.len() + off, first.len() + off + blk.len()) =~~= rest.subrange(
            off,
            off + blk.len(),
        ));
    }
}

} // verus!
