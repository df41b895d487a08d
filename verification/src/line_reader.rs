//! Reading up to a delimiter in the bytes that a stream has delivered so far.
//!
//! The caller gathers what it has read and asks again whenever more has
//! arrived. A line is never longer than `MAX_LINE_LEN` bytes: a stream that
//! delivers more without the delimiter is given up.

use crate::error::ProxyError;
use crate::text::{copy_range, find_first, lemma_first_at};
use vstd::prelude::*;

verus! {

/// The most bytes that may stand before a delimiter.
pub const MAX_LINE_LEN: usize = 8192;

/// The part of `input` in which a delimiter is looked for: all of it, or its
/// first `MAX_LINE_LEN + 1` bytes.
pub open spec fn line_window(input: Seq<u8>) -> Seq<u8> {
    if input.len() > MAX_LINE_LEN {
        input.take(MAX_LINE_LEN + 1)
    } else {
        input
    }
}

/// What reading up to `delimiter` gives on `input`, the bytes delivered so
/// far, where `at_end` says that the stream has ended behind them.
///
/// Where the delimiter stands among the first `MAX_LINE_LEN + 1` bytes, the
/// result is the text before its first occurrence and the number of bytes
/// used up, the delimiter among them. Where it does not, the line is too long
/// if that many bytes are there; else the stream was closed too early if it
/// has ended, and otherwise more bytes are needed, which `None` says.
pub open spec fn line_before(input: Seq<u8>, delimiter: u8, at_end: bool) -> Result<
    Option<(Seq<u8>, int)>,
    ProxyError,
> {
    match line_window(input).index_of_first(delimiter) {
        Some(i) => Ok(Some((input.take(i), i + 1))),
        None => if input.len() > MAX_LINE_LEN {
            Err(ProxyError::LineTooLong)
        } else if at_end {
            Err(ProxyError::ConnectionClosed)
        } else {
            Ok(None)
        },
    }
}

/// A text without the delimiter, and no longer than a line may be, is read
/// as it stands when the delimiter follows it, whatever comes behind; and
/// what comes behind is what is left.
pub proof fn lemma_line_found(text: Seq<u8>, delimiter: u8, rest: Seq<u8>, at_end: bool)
    requires
        text.len() <= MAX_LINE_LEN,
        !text.contains(delimiter),
    ensures
        line_before(text + seq![delimiter] + rest, delimiter, at_end) == Ok::<
            Option<(Seq<u8>, int)>,
            ProxyError,
        >(Some((text, text.len() as int + 1))),
        (text + seq![delimiter] + rest).skip(text.len() as int + 1) == rest,
{
    let input = text + seq![delimiter] + rest;
    let window = line_window(input);
    let n = text.len() as int;
    assert(window[n] == delimiter);
    assert forall|j: int| 0 <= j < n implies window[j] != delimiter by {
        assert(window[j] == text[j]);
    }
    lemma_first_at(window, delimiter, n);
    assert(input.take(n) =~= text);
    assert(input.skip(n + 1) =~= rest);
}

/// A line that is found takes the text, which is no longer than a line may
/// be, and the delimiter behind it, all from the bytes at hand.
pub proof fn lemma_line_within(input: Seq<u8>, delimiter: u8, at_end: bool)
    ensures
        line_before(input, delimiter, at_end) matches Ok(Some((text, used))) ==> used
            == text.len() + 1 && used <= input.len() && text.len() <= MAX_LINE_LEN,
{
    line_window(input).index_of_first_ensures(delimiter);
}

/// Once reading has found its line, or has failed, bytes that arrive later
/// change nothing.
pub proof fn lemma_line_settled(input: Seq<u8>, more: Seq<u8>, delimiter: u8, at_end: bool)
    requires
        line_before(input, delimiter, false) != Ok::<Option<(Seq<u8>, int)>, ProxyError>(None),
    ensures
        line_before(input + more, delimiter, at_end) == line_before(input, delimiter, false),
{
    let window = line_window(input);
    let longer = line_window(input + more);
    window.index_of_first_ensures(delimiter);
    match window.index_of_first(delimiter) {
        Some(i) => {
            assert(longer[i] == window[i]);
            assert forall|j: int| 0 <= j < i implies longer[j] != delimiter by {
                assert(longer[j] == window[j]);
            }
            lemma_first_at(longer, delimiter, i);
            assert((input + more).take(i) =~= input.take(i));
        },
        None => {
            assert(longer =~= window);
        },
    }
}

/// Where reading waits for more bytes, the end of the stream is a
/// connection closed too early.
pub proof fn lemma_line_cut_short(input: Seq<u8>, delimiter: u8)
    requires
        line_before(input, delimiter, false) == Ok::<Option<(Seq<u8>, int)>, ProxyError>(None),
    ensures
        line_before(input, delimiter, true) == Err::<Option<(Seq<u8>, int)>, ProxyError>(
            ProxyError::ConnectionClosed,
        ),
{
}

/// Reads up to `delimiter` in `input`, the bytes that a stream has delivered
/// so far; `at_end` says that the stream has ended behind them.
///
/// Gives the text before the delimiter and how many bytes of `input` are used
/// up, or `None` where more bytes have to arrive first.
pub fn read_until(input: &[u8], delimiter: u8, at_end: bool) -> (r: Result<
    Option<(Vec<u8>, usize)>,
    ProxyError,
>)
    ensures
        match r {
            Ok(Some((text, used))) => used <= input.len() && line_before(input@, delimiter, at_end)
                == Ok::<Option<(Seq<u8>, int)>, ProxyError>(Some((text@, used as int))),
            Ok(None) => line_before(input@, delimiter, at_end) == Ok::<
                Option<(Seq<u8>, int)>,
                ProxyError,
            >(None),
            Err(e) => line_before(input@, delimiter, at_end) == Err::<
                Option<(Seq<u8>, int)>,
                ProxyError,
            >(e),
        },
{
    let window = if input.len() > MAX_LINE_LEN {
        vstd::slice::slice_subrange(input, 0, MAX_LINE_LEN + 1)
    } else {
        input
    };
    match find_first(window, delimiter) {
        Some(i) => Ok(Some((copy_range(input, 0, i), i + 1))),
        None => {
            if input.len() > MAX_LINE_LEN {
                Err(ProxyError::LineTooLong)
            } else if at_end {
                Err(ProxyError::ConnectionClosed)
            } else {
                Ok(None)
            }
        },
    }
}

} // verus!
