//! What people get to read, told word by word.

use vstd::prelude::*;

use crate::error::{ContextView, ErrorView, FailureView, KindView};
use crate::extract::ExtractionView;
use crate::names::NameFault;
use crate::path::PathView;

verus! {

/// Whether `h` is the whole number nearest to `n / d`, and the even one of two that are as near.
pub open spec fn is_nearest(n: int, d: int, h: int) -> bool {
    &&& 2 * (n - h * d) <= d
    &&& 2 * (h * d - n) <= d
    &&& 2 * (n - h * d) == d || 2 * (h * d - n) == d ==> h % 2 == 0
}

/// Whether `d` is the number with 53 significant bits that is nearest to `n`: below 2 to the 53rd `n`
/// itself, and from there on a multiple of `gap`, the power of 2 that leaves `n` between 2 to the 52nd
/// and 2 to the 53rd of its multiples.
pub open spec fn is_double(n: int, d: int) -> bool {
    if n < 0x20_0000_0000_0000 {
        d == n
    } else {
        exists|gap: int, steps: int| #[trigger]
            is_power_of_two(gap) && 0x10_0000_0000_0000 * gap <= n < 0x20_0000_0000_0000 * gap
                && #[trigger] is_nearest(n, gap, steps) && d == steps * gap
    }
}

/// Whether `n` is a power of 2.
pub open spec fn is_power_of_two(n: int) -> bool
    decreases n,
{
    if n <= 1 {
        n == 1
    } else {
        n % 2 == 0 && is_power_of_two(n / 2)
    }
}

/// The quotient is nearest.
proof fn lemma_nearest(n: nat, d: nat)
    requires
        d > 0,
    ensures
        is_nearest(n as int, d as int, crate::size::nearest(n, d) as int),
{
    let q = (n / d) as int;
    let r = (n % d) as int;
    let h = crate::size::nearest(n, d) as int;
    assert(n == d * q + r && 0 <= r < d) by (nonlinear_arith)
        requires
            d > 0,
            q == n / d,
            r == n % d,
    ;
    assert(q * d == d * q && (q + 1) * d == d * q + d) by (nonlinear_arith);
}

/// The spacing is a power of 2 that fits the number.
proof fn lemma_spacing(n: nat)
    ensures
        crate::size::spacing(n) > 0,
        is_power_of_two(crate::size::spacing(n) as int),
        n >= 0x20_0000_0000_0000 ==> 0x10_0000_0000_0000 * crate::size::spacing(n) <= n
            < 0x20_0000_0000_0000 * crate::size::spacing(n),
        n < 0x20_0000_0000_0000 ==> crate::size::spacing(n) == 1,
    decreases n,
{
    if n >= 0x20_0000_0000_0000 {
        lemma_spacing(n / 2);
        let gap = crate::size::spacing(n) as int;
        assert(gap % 2 == 0 && gap / 2 == crate::size::spacing(n / 2));
    }
}

/// The size is given in GiB from 2 to the 30th bytes on, in MiB from 2 to the 20th, in KiB from 1024,
/// and in bytes below.
pub open spec fn is_unit(bytes: nat, unit: int, name: Seq<char>) -> bool {
    ||| bytes >= 1073741824 && unit == 1073741824 && name == "GiB"@
    ||| 1048576 <= bytes < 1073741824 && unit == 1048576 && name == "MiB"@
    ||| 1024 <= bytes < 1048576 && unit == 1024 && name == "KiB"@
    ||| bytes < 1024 && unit == 1 && name == "bytes"@
}

/// A size is told in its unit, to the nearest hundredth, with a point and two digits; of a size of 2
/// to the 53rd bytes or more, the 53 leading bits count.
pub proof fn law_sizes(bytes: nat, unit: int, name: Seq<char>, exact: int, hundredths: nat)
    requires
        is_unit(bytes, unit, name),
        is_double(bytes as int, exact),
        is_nearest(100 * exact, unit, hundredths as int),
    ensures
        crate::size::human(bytes) == crate::text::decimal(hundredths / 100) + "."@ + seq![
            (0x30 + hundredths / 10 % 10) as char,
            (0x30 + hundredths % 10) as char,
        ] + " "@ + name,
{
    let near = crate::size::double(bytes);
    lemma_spacing(bytes);
    let gap = crate::size::spacing(bytes);
    lemma_nearest(bytes, gap);
    if bytes < 0x20_0000_0000_0000 {
        assert(crate::size::nearest(bytes, 1) == bytes);
        assert(near == bytes) by (nonlinear_arith)
            requires
                near == crate::size::nearest(bytes, gap) * gap,
                gap == 1,
                crate::size::nearest(bytes, 1) == bytes,
        ;
    } else {
        let (g, steps) = choose|g: int, steps: int| #[trigger]
            is_power_of_two(g) && 0x10_0000_0000_0000 * g <= bytes < 0x20_0000_0000_0000 * g
                && #[trigger] is_nearest(bytes as int, g, steps) && exact == steps * g;
        lemma_same_power(g, gap as int);
        lemma_nearest_is_one(bytes as int, g, steps, crate::size::nearest(bytes, gap) as int);
    }
    assert(near == exact);
    let u = crate::size::unit(bytes);
    lemma_nearest(near * 100, u);
    lemma_nearest_is_one(
        100 * exact,
        unit,
        hundredths as int,
        crate::size::nearest(near * 100, u) as int,
    );
    assert(crate::size::human(bytes) =~= crate::text::decimal(hundredths / 100) + "."@ + seq![
        (0x30 + hundredths / 10 % 10) as char,
        (0x30 + hundredths % 10) as char,
    ] + " "@ + name);
}

/// There is just one nearest number.
proof fn lemma_nearest_is_one(n: int, d: int, a: int, b: int)
    requires
        d > 0,
        is_nearest(n, d, a),
        is_nearest(n, d, b),
    ensures
        a == b,
{
    assert(a == b || b == a + 1 || a == b + 1) by (nonlinear_arith)
        requires
            d > 0,
            2 * (n - a * d) <= d,
            2 * (a * d - n) <= d,
            2 * (n - b * d) <= d,
            2 * (b * d - n) <= d,
    ;
    if b == a + 1 {
        assert((a + 1) * d == a * d + d) by (nonlinear_arith);
    }
    if a == b + 1 {
        assert((b + 1) * d == b * d + d) by (nonlinear_arith);
    }
}

/// Of two powers of 2 of which neither is twice the other or more, both are the same.
proof fn lemma_same_power(a: int, b: int)
    requires
        is_power_of_two(a),
        is_power_of_two(b),
        a < 2 * b,
        b < 2 * a,
    ensures
        a == b,
    decreases a,
{
    if a > 1 && b > 1 {
        lemma_same_power(a / 2, b / 2);
    }
}

/// There is a number with 53 significant bits nearest to each, and a hundredth nearest to that.
pub proof fn law_sizes_can_be_told(bytes: nat) -> (told: (int, Seq<char>, int, nat))
    ensures
        is_unit(bytes, told.0, told.1),
        is_double(bytes as int, told.2),
        is_nearest(100 * told.2, told.0, told.3 as int),
{
    let unit = crate::size::unit(bytes);
    let near = crate::size::double(bytes);
    let gap = crate::size::spacing(bytes);
    lemma_spacing(bytes);
    lemma_nearest(bytes, gap);
    lemma_nearest(near * 100, unit);
    let steps = crate::size::nearest(bytes, gap);
    if bytes < 0x20_0000_0000_0000 {
        assert(near == bytes) by (nonlinear_arith)
            requires
                near == steps * gap,
                gap == 1,
                steps == bytes,
        ;
    } else {
        assert(is_power_of_two(gap as int) && is_nearest(bytes as int, gap as int, steps as int));
        assert(near == steps * gap);
    }
    (unit as int, crate::size::unit_name(bytes), near as int, crate::size::nearest(near * 100, unit))
}

/// What was extracted is told: how many entries, and how large they are together. That is nothing for
/// none, and grows by the size of each.
pub proof fn law_summary(state: ExtractionView, entry: crate::index::EntryView)
    ensures
        state.summary() == "Extracted "@ + crate::text::decimal(state.entries.len()) + " entries ("@
            + crate::size::human(crate::index::sum_sizes(state.entries)) + ")"@,
        crate::index::sum_sizes(Seq::empty()) == 0,
        crate::index::sum_sizes(state.entries.push(entry)) == crate::index::sum_sizes(state.entries)
            + entry.size,
{
    assert(state.entries.push(entry).drop_last() =~= state.entries);
}

/// A failure that came up while something was being done is told with that, and with the path that it
/// was done to in quotation marks if there is one; an archive that is at fault is told of as it is.
pub proof fn law_messages(failure: FailureView, doing: Seq<char>, path: PathView, fault: Seq<char>)
    ensures
        (ErrorView {
            kind: KindView::Io(failure),
            context: Some(ContextView { doing, path: Some(path) }),
        }).message() == doing + " \""@ + crate::text::lossy(path.bytes()) + "\": "@
            + failure.message,
        (ErrorView {
            kind: KindView::Io(failure),
            context: Some(ContextView { doing, path: None }),
        }).message() == doing + ": "@ + failure.message,
        (ErrorView { kind: KindView::InvalidGma(fault), context: None }).message() == fault,
{
}

/// An input that ends too early is the archive's fault, be it within the head, where what was being
/// read is told, or within the contents of an entry, where the path is told that it goes to; a read
/// that fails otherwise is not.
pub proof fn law_truncated_archives(failure: FailureView, context: Seq<char>, path: PathView)
    ensures
        failure.unexpected_eof ==> {
            &&& ErrorView::reading(failure, context) == (ErrorView {
                kind: KindView::InvalidGma(
                    context + ": unexpected end of file, GMA is truncated"@,
                ),
                context: None,
            })
            &&& ErrorView::entry(failure, path) == (ErrorView {
                kind: KindView::InvalidGma(
                    "GMA is truncated, entry \""@ + crate::text::lossy(path.bytes())
                        + "\" is cut short"@,
                ),
                context: None,
            })
        },
        !failure.unexpected_eof ==> {
            &&& ErrorView::reading(failure, context) == (ErrorView {
                kind: KindView::Io(failure),
                context: Some(ContextView { doing: context, path: None }),
            })
            &&& ErrorView::entry(failure, path) == (ErrorView {
                kind: KindView::Io(failure),
                context: Some(
                    ContextView { doing: "reading GMA entry data"@, path: Some(path) },
                ),
            })
        },
        FailureView::end_of_file().unexpected_eof,
        FailureView::end_of_file().message == "unexpected end of file"@,
{
}

/// How many files could not be written is told.
pub proof fn law_unwritten_files(failed: nat)
    ensures
        ErrorView::unwritten(failed).message() == "extracting GMA entries: "@
            + crate::text::decimal(failed) + " files failed to write"@,
        ErrorView::unwritten(failed).kind is Io,
{
    reveal_strlit("extracting GMA entries");
    reveal_strlit(": ");
    reveal_strlit("extracting GMA entries: ");
    assert("extracting GMA entries"@ + ": "@ =~= "extracting GMA entries: "@);
    assert(ErrorView::unwritten(failed).message() =~= ("extracting GMA entries"@ + ": "@)
        + crate::text::decimal(failed) + " files failed to write"@);
}

/// What is wrong with a name is told in words of its own.
pub proof fn law_fault_words()
    ensures
        NameFault::NotUtf8.words() == "is not valid UTF-8"@,
        NameFault::Empty.words() == "is empty"@,
        NameFault::Escapes.words() == "escapes the output folder"@,
        NameFault::DeviceName.words() == "is a reserved Windows device name"@,
        NameFault::Duplicate.words() == "is a duplicate entry"@,
        NameFault::Occupied.words() == "is the place of another entry"@,
{
}

} // verus!
