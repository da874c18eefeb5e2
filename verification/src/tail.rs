//! The tail pass: selects the leading or trailing lines or bytes of an
//! input and renders them, leaving all reading, retrying, and following
//! to the caller.

use vstd::prelude::*;

use crate::engine::texts_view;

verus! {

/// Options of the tail pass; every field maps to one option of the
/// command surface.  Counts arrive as their raw text and are resolved by
/// the caller.
#[derive(Clone, Debug)]
pub struct TailOpt {
    /// The location is a number of 512-byte blocks.
    pub num_blocks: Option<String>,
    /// The location is a number of bytes.
    pub num_bytes: Option<String>,
    /// Keep waiting for data appended to the input.
    pub f_option: bool,
    /// Like `f_option`, reopening the file when it is rotated.
    pub f_upper: bool,
    /// The location is a number of lines.
    pub num_lines: Option<String>,
    /// Suppress per-file headers.
    pub q_option: bool,
    /// Display the input in reverse order, by line.
    pub reverse: bool,
    /// The files to read.
    pub file: Vec<String>,
}

/// Everything that can go wrong around the tail pass; reading or writing
/// trouble is reported by the caller through this type.
#[derive(Clone, Debug)]
pub enum TailError {
    /// The input could not be read or the output could not be written;
    /// the payload carries the reporting text.
    IOError(String),
}

/// A line terminated for output: bare under zero-terminated output,
/// otherwise with a trailing newline.
pub open spec fn terminated(line: Seq<u8>, zero_terminated: bool) -> Seq<u8> {
    if zero_terminated {
        line
    } else {
        line + seq![10u8]
    }
}

/// The rendering of a sequence of lines, each terminated.
pub open spec fn rendered(lines: Seq<Seq<u8>>, zero_terminated: bool) -> Seq<u8>
    decreases lines.len(),
{
    if lines.len() == 0 {
        Seq::empty()
    } else {
        rendered(lines.drop_last(), zero_terminated) + terminated(lines.last(), zero_terminated)
    }
}

/// The lines the pass selects: all but the first `n` from the start,
/// or the last `n` from the end.
pub open spec fn selected_lines(lines: Seq<Seq<u8>>, n: nat, from_start: bool) -> Seq<Seq<u8>> {
    let m = if n > lines.len() {
        lines.len()
    } else {
        n
    };
    if from_start {
        lines.skip(m as int)
    } else {
        lines.skip(lines.len() - m)
    }
}

/// Renders every selected line, terminated as configured.
fn render_lines(lines: &Vec<Vec<u8>>, from: usize, zero_terminated: bool) -> (out: Vec<u8>)
    requires
        from <= lines@.len(),
    ensures
        out@ == rendered(texts_view(lines@).skip(from as int), zero_terminated),
{
    let ghost tv = texts_view(lines@);
    let mut out: Vec<u8> = Vec::new();
    let mut i: usize = from;
    proof {
        assert(tv.subrange(from as int, from as int) =~= Seq::<Seq<u8>>::empty());
        assert(out@ =~= rendered(tv.subrange(from as int, from as int), zero_terminated));
    }
    while i < lines.len()
        invariant
            from <= i <= lines.len(),
            tv == texts_view(lines@),
            out@ == rendered(tv.subrange(from as int, i as int), zero_terminated),
        decreases lines.len() - i,
    {
        let ghost before = out@;
        let mut k: usize = 0;
        while k < lines[i].len()
            invariant
                i < lines@.len(),
                k <= lines@[i as int]@.len(),
                out@ == before + lines@[i as int]@.take(k as int),
            decreases lines@[i as int]@.len() - k,
        {
            out.push(lines[i][k]);
            k = k + 1;
            proof {
                assert(before + lines@[i as int]@.take(k as int) =~= (before + lines@[
                    i as int]@.take(k - 1)).push(lines@[i as int]@[k - 1]));
            }
        }
        proof {
            assert(lines@[i as int]@.take(lines@[i as int]@.len() as int) =~= lines@[
                i as int]@);
        }
        if !zero_terminated {
            out.push(10);
        }
        i = i + 1;
        proof {
            let sub = tv.subrange(from as int, i as int);
            assert(sub.drop_last() =~= tv.subrange(from as int, i - 1));
            assert(sub.last() == tv[i - 1]);
            assert(out@ =~= rendered(sub.drop_last(), zero_terminated) + terminated(
                tv[i - 1],
                zero_terminated,
            ));
        }
    }
    proof {
        assert(tv.subrange(from as int, lines@.len() as int) =~= tv.skip(from as int));
    }
    out
}

/// Selects all lines but the first `n`, or the last `n` lines, and
/// renders them with the configured terminator.
pub fn tail_lines(lines: &Vec<Vec<u8>>, n: usize, from_start: bool, zero_terminated: bool) -> (out:
    Vec<u8>)
    ensures
        out@ == rendered(selected_lines(texts_view(lines@), n as nat, from_start),
            zero_terminated),
{
    let m = if n > lines.len() {
        lines.len()
    } else {
        n
    };
    let from = if from_start {
        m
    } else {
        lines.len() - m
    };
    render_lines(lines, from, zero_terminated)
}

/// The byte fold output applies: under zero-terminated output the
/// leading variant folds the newline to the NUL byte, and the trailing
/// variant folds the letter `n`.
pub open spec fn folded_byte(b: u8, zero_terminated: bool, from_start: bool) -> u8 {
    if zero_terminated && ((from_start && b == 10) || (!from_start && b == 110)) {
        0
    } else {
        b
    }
}

/// The bytes the pass selects, folded: all but the first `n` from the
/// start, or the last `n` from the end.
pub open spec fn selected_bytes(data: Seq<u8>, n: nat, from_start: bool, zero_terminated: bool)
    -> Seq<u8> {
    let m = if n > data.len() {
        data.len()
    } else {
        n
    };
    let picked = if from_start {
        data.skip(m as int)
    } else {
        data.skip(data.len() - m)
    };
    picked.map_values(|b: u8| folded_byte(b, zero_terminated, from_start))
}

/// Selects all bytes but the first `n`, or the last `n` bytes, folding
/// each as configured.
pub fn tail_bytes(data: &Vec<u8>, n: usize, from_start: bool, zero_terminated: bool) -> (out: Vec<
    u8,
>)
    ensures
        out@ == selected_bytes(data@, n as nat, from_start, zero_terminated),
{
    let m = if n > data.len() {
        data.len()
    } else {
        n
    };
    let from = if from_start {
        m
    } else {
        data.len() - m
    };
    let ghost picked = if from_start {
        data@.skip(m as int)
    } else {
        data@.skip(data@.len() - m)
    };
    let mut out: Vec<u8> = Vec::new();
    let mut k: usize = from;
    proof {
        assert(picked =~= data@.skip(from as int));
        assert(out@ =~= picked.take(0).map_values(
            |b: u8| folded_byte(b, zero_terminated, from_start),
        ));
    }
    while k < data.len()
        invariant
            from <= k <= data.len(),
            picked == data@.skip(from as int),
            out@ == picked.take(k - from).map_values(
                |b: u8| folded_byte(b, zero_terminated, from_start),
            ),
        decreases data.len() - k,
    {
        let b = data[k];
        let fold_it = zero_terminated && ((from_start && b == 10) || (!from_start && b == 110));
        if fold_it {
            out.push(0);
        } else {
            out.push(b);
        }
        k = k + 1;
        proof {
            assert(picked.take(k - from).map_values(
                |b2: u8| folded_byte(b2, zero_terminated, from_start),
            ) =~= picked.take(k - from - 1).map_values(
                |b2: u8| folded_byte(b2, zero_terminated, from_start),
            ).push(folded_byte(data@[k - 1], zero_terminated, from_start)));
        }
    }
    proof {
        assert(picked.take(data@.len() - from) =~= picked);
    }
    out
}

/// The unit the pass counts in and how many of it, resolved from the
/// two count options: a byte count wins over a line count, and ten
/// lines is the default.  The first component is true for lines, false
/// for bytes.
pub open spec fn spec_unit_selection(bytes: Option<usize>, lines: Option<usize>) -> (bool, usize) {
    match bytes {
        Option::Some(x) => (false, x),
        Option::None => match lines {
            Option::Some(y) => (true, y),
            Option::None => (true, 10),
        },
    }
}

/// Resolves the count options into the unit and amount the pass uses.
pub fn unit_selection(bytes: &Option<usize>, lines: &Option<usize>) -> (r: (bool, usize))
    ensures
        r == spec_unit_selection(*bytes, *lines),
{
    match bytes {
        Option::Some(x) => (false, *x),
        Option::None => match lines {
            Option::Some(y) => (true, *y),
            Option::None => (true, 10),
        },
    }
}

/// The header printed before a file's output when several files are
/// shown: the file's name between arrow brackets, on its own line.
pub open spec fn header_of(name: Seq<u8>) -> Seq<u8> {
    seq![61u8, 61, 62] + name + seq![60u8, 61, 61, 10]
}

/// Renders the per-file header for one file name.
pub fn file_header(name: &Vec<u8>) -> (h: Vec<u8>)
    ensures
        h@ == header_of(name@),
{
    let mut h: Vec<u8> = Vec::new();
    h.push(61);
    h.push(61);
    h.push(62);
    let mut k: usize = 0;
    proof {
        assert(h@ =~= seq![61u8, 61, 62] + name@.take(0));
    }
    while k < name.len()
        invariant
            k <= name.len(),
            h@ == seq![61u8, 61, 62] + name@.take(k as int),
        decreases name.len() - k,
    {
        h.push(name[k]);
        k = k + 1;
        proof {
            assert(seq![61u8, 61, 62] + name@.take(k as int) =~= (seq![61u8, 61, 62]
                + name@.take(k - 1)).push(name@[k - 1]));
        }
    }
    h.push(60);
    h.push(61);
    h.push(61);
    h.push(10);
    proof {
        assert(name@.take(name@.len() as int) =~= name@);
        assert(h@ =~= header_of(name@));
    }
    h
}

} // verus!
