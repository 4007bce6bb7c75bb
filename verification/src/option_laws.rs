//! What the arguments of the program come to, told by their bytes.

use vstd::prelude::*;
use vstd::string::*;

use crate::conf::{ConfigView, InView, JobView, OptionGroup};
use crate::path::Platform;

verus! {

/// Whether `b` is a decimal digit.
pub open spec fn is_digit(b: u8) -> bool {
    0x30 <= b <= 0x39
}

/// A number below ten is written as one digit, and a digit behind a number that is not zero makes
/// ten times that number and the digit.
pub proof fn law_decimal(n: nat, d: nat)
    requires
        d < 10,
    ensures
        crate::text::decimal(d) == seq![(0x30 + d) as char],
        n > 0 ==> crate::text::decimal(10 * n + d) == crate::text::decimal(n).push(
            (0x30 + d) as char,
        ),
{
    if n > 0 {
        let m = (10 * n + d) as nat;
        assert(m / 10 == n && m % 10 == d);
    }
}

/// The bytes of a number in decimal.
proof fn lemma_decimal_bytes(n: nat)
    ensures
        ({
            let bytes = vstd::utf8::encode_utf8(crate::text::decimal(n));
            &&& bytes.len() > 0
            &&& bytes.len() == crate::text::decimal(n).len()
            &&& forall|i: int| 0 <= i < bytes.len() ==> is_digit(#[trigger] bytes[i])
            &&& crate::conf::number(bytes) == n
        }),
    decreases n,
{
    let text = crate::text::decimal(n);
    let bytes = vstd::utf8::encode_utf8(text);
    crate::text::lemma_decimal_digits(n);
    vstd::utf8::is_ascii_chars_encode_utf8(text);
    assert forall|i: int| 0 <= i < bytes.len() implies is_digit(#[trigger] bytes[i]) by {
        assert(text[i] as u8 == bytes[i]);
    }
    assert(bytes.last() == text.last() as u8);
    if n < 10 {
        assert(bytes.drop_last() =~= Seq::<u8>::empty());
        assert(crate::conf::number(bytes.drop_last()) == 0);
    } else {
        let front = crate::text::decimal(n / 10);
        lemma_decimal_bytes(n / 10);
        crate::text::lemma_decimal_digits(n / 10);
        vstd::utf8::is_ascii_chars_encode_utf8(front);
        assert(bytes.drop_last() =~= vstd::utf8::encode_utf8(front)) by {
            assert forall|i: int| 0 <= i < front.len() implies bytes[i]
                == #[trigger] vstd::utf8::encode_utf8(front)[i] by {
                assert(text[i] == front[i]);
            }
        }
    }
}

/// A zero in front changes no number.
proof fn lemma_zero_in_front(s: Seq<u8>)
    ensures
        crate::conf::number(seq![0x30u8] + s) == crate::conf::number(s),
    decreases s.len(),
{
    let t = seq![0x30u8] + s;
    if s.len() == 0 {
        assert(t.drop_last() =~= Seq::<u8>::empty());
        assert(crate::conf::number(t.drop_last()) == 0);
    } else {
        lemma_zero_in_front(s.drop_last());
        assert(t.drop_last() =~= seq![0x30u8] + s.drop_last());
    }
}

/// Every number that a `usize` holds is read as it is written, but for zero; numbers that are
/// larger are not read.
pub proof fn law_numbers_are_read(n: nat)
    ensures
        crate::conf::count(vstd::utf8::encode_utf8(crate::text::decimal(n))) == if 0 < n
            <= usize::MAX {
            Some(n)
        } else {
            None
        },
{
    lemma_decimal_bytes(n);
    let bytes = vstd::utf8::encode_utf8(crate::text::decimal(n));
    assert(is_digit(bytes[0]));
    assert(crate::conf::all_digits(bytes)) by {
        assert forall|i: int| 0 <= i < bytes.len() implies 0x30 <= #[trigger] bytes[i] <= 0x39 by {
            assert(is_digit(bytes[i]));
        }
    }
}

/// Zeros before the other digits, and one plus sign before them all, make no difference.
pub proof fn law_numbers_may_be_padded(s: Seq<u8>)
    requires
        s.len() > 0,
        is_digit(s[0]),
    ensures
        crate::conf::count(seq![0x2bu8] + s) == crate::conf::count(s),
        crate::conf::count(seq![0x30u8] + s) == crate::conf::count(s),
{
    let plus = seq![0x2bu8] + s;
    let zero = seq![0x30u8] + s;
    assert(plus.skip(1) =~= s);
    lemma_zero_in_front(s);
    assert(crate::conf::all_digits(zero) == crate::conf::all_digits(s)) by {
        if crate::conf::all_digits(zero) {
            assert forall|i: int| 0 <= i < s.len() implies 0x30 <= #[trigger] s[i] <= 0x39 by {
                assert(zero[i + 1] == s[i]);
            }
        }
        if crate::conf::all_digits(s) {
            assert forall|i: int| 0 <= i < zero.len() implies 0x30 <= #[trigger] zero[i]
                <= 0x39 by {
                if i > 0 {
                    assert(zero[i] == s[i - 1]);
                }
            }
        }
    }
}

/// What holds no digit, or anything else than digits behind a plus sign or none, is no number.
pub proof fn law_only_numbers_are_read(s: Seq<u8>)
    ensures
        s.len() == 0 ==> crate::conf::count(s) is None,
        s == seq![0x2bu8] ==> crate::conf::count(s) is None,
        forall|i: int|
            0 <= i < s.len() && !is_digit(#[trigger] s[i]) && !(i == 0 && s[i] == 0x2b)
                ==> crate::conf::count(s) is None,
        crate::conf::count(s) matches Some(n) ==> 0 < n <= usize::MAX,
{
    assert forall|i: int|
        0 <= i < s.len() && !is_digit(#[trigger] s[i]) && !(i == 0 && s[i] == 0x2b) implies
        crate::conf::count(s) is None by {
        let digits = crate::conf::unsigned(s);
        if s[0] == 0x2b {
            assert(digits[i - 1] == s[i]);
        } else {
            assert(digits[i] == s[i]);
        }
    }
}

/// The bytes of `text`, which holds ASCII alone.
proof fn lemma_bytes(text: &str, bytes: Seq<u8>)
    requires
        is_ascii(text),
        text@.len() == bytes.len(),
        forall|k: int| 0 <= k < bytes.len() ==> #[trigger] text@[k] as u8 == bytes[k],
    ensures
        text.spec_bytes() == bytes,
{
    assert(text.spec_bytes() =~= bytes);
}

/// Whether `ext` is `gma`, in small letters or capitals.
pub open spec fn spells_gma(ext: Seq<u8>) -> bool {
    &&& ext.len() == 3
    &&& ext[0] == 0x67 || ext[0] == 0x47
    &&& ext[1] == 0x6d || ext[1] == 0x4d
    &&& ext[2] == 0x61 || ext[2] == 0x41
}

/// The extension of an archive is told by its letters.
proof fn lemma_is_gma(ext: Seq<u8>)
    ensures
        crate::command::is_gma(Some(ext)) <==> spells_gma(ext),
{
    let capitals = ext.map_values(|b: u8| crate::names::capital(b));
    reveal_strlit("GMA");
    lemma_bytes("GMA", seq![0x47u8, 0x4d, 0x41]);
    let gma = "GMA".spec_bytes();
    assert(capitals.len() == ext.len());
    assert forall|i: int| 0 <= i < ext.len() implies #[trigger] capitals[i]
        == crate::names::capital(ext[i]) by {}
    if spells_gma(ext) {
        assert(capitals =~= gma);
    }
    if capitals =~= gma {
        assert(capitals[0] == 0x47 && capitals[1] == 0x4d && capitals[2] == 0x41);
        assert(spells_gma(ext));
    }
    assert(crate::command::is_gma(Some(ext)) <==> capitals == gma);
}

/// Whether the job is to extract the archive at `path` to the folder `out`, and nothing else is
/// changed of what holds anyway.
pub open spec fn is_plain_job(
    job: JobView,
    config: ConfigView,
    path: Seq<u8>,
    out: Seq<u8>,
) -> bool {
    &&& job.config.out.bytes() == out
    &&& job.config.out.platform == config.out.platform
    &&& job.config.max_io_threads == config.max_io_threads
    &&& job.config.max_io_memory_usage == config.max_io_memory_usage
    &&& job.input matches InView::File(file) && file.bytes() == path && file.platform
        == config.out.platform
    &&& !job.out_is_default
}

/// If the first argument is a path with the extension `gma`, in small letters or capitals, whatever
/// arguments follow, and if none do, the archive there is extracted to the path less the dot and the
/// extension.
pub proof fn law_archive_alone(
    args: Seq<Seq<u8>>,
    config: ConfigView,
    stem: Seq<u8>,
    ext: Seq<u8>,
)
    requires
        args.len() > 0,
        args[0] == stem + seq![0x2eu8] + ext,
        spells_gma(ext),
        crate::spelling_laws::is_simple(config.out.platform, stem),
        stem.len() > crate::spelling_laws::drive_len(config.out.platform, stem),
        !crate::spelling_laws::ends_name(config.out.platform, stem.last()),
    ensures
        crate::command::job(args, config) matches Ok(job) && is_plain_job(
            job,
            config,
            args[0],
            stem,
        ),
{
    let platform = config.out.platform;
    assert forall|i: int| 0 <= i < ext.len() implies #[trigger] ext[i] != 0x2e
        && !crate::spelling_laws::ends_name(platform, ext[i]) by {
        assert(i == 0 || i == 1 || i == 2);
    }
    crate::spelling_laws::law_extension(platform, stem, ext);
    lemma_is_gma(ext);
}

/// However the path of an archive begins and ends, the folder that it is extracted to is the path up
/// to the dot before its extension; and arguments that follow it make no difference.
pub proof fn law_archive_with_any_path(args: Seq<Seq<u8>>, config: ConfigView)
    requires
        args.len() > 0,
        config.out.platform.extension(args[0]) matches Some(ext) && spells_gma(ext),
    ensures
        crate::command::job(args, config) == crate::command::job(seq![args[0]], config),
        crate::command::job(args, config) matches Ok(job) && {
            let out = job.config.out.bytes();
            &&& is_plain_job(job, config, args[0], out)
            &&& 0 < out.len() < args[0].len()
            &&& out == args[0].take(out.len() as int)
            &&& args[0][out.len() as int] == 0x2e
        },
{
    let platform = config.out.platform;
    let ext = platform.extension(args[0])->0;
    lemma_is_gma(ext);
    crate::spelling_laws::law_extension_is_cut_off(platform, args[0]);
    let rest = platform.without_extension(args[0]);
    let whole = rest + seq![0x2eu8] + ext;
    assert(whole[rest.len() as int] == 0x2e);
    assert(rest =~= whole.take(rest.len() as int));
    assert(rest =~= args[0].take(rest.len() as int));
}

/// `extract` hands the arguments behind it on, and what is wrong with them is told.
pub proof fn law_extract_command(rest: Seq<Seq<u8>>, config: ConfigView)
    ensures
        ({
            let name = seq![0x65u8, 0x78, 0x74, 0x72, 0x61, 0x63, 0x74];
            match crate::conf::parse_args(rest, config) {
                Ok(job) => crate::command::job(seq![name] + rest, config) == Ok::<
                    JobView,
                    Option<Seq<char>>,
                >(job),
                Err(message) => crate::command::job(seq![name] + rest, config) == Err::<
                    JobView,
                    Option<Seq<char>>,
                >(Some(message)),
            }
        }),
{
    let name = seq![0x65u8, 0x78, 0x74, 0x72, 0x61, 0x63, 0x74];
    let args = seq![name] + rest;
    let platform = config.out.platform;
    reveal_strlit("extract");
    lemma_bytes("extract", name);
    let none = Seq::<u8>::empty();
    assert(none + name =~= name);
    crate::spelling_laws::law_no_extension(platform, none, name);
    assert(args[0] == name);
    assert(args.skip(1) =~= rest);
}

/// A first argument that is neither `extract` nor ends with a dot and `gma`, nor with a separator or
/// a dot, is no command; nor is one that is not `extract` and holds no dot with `gma` behind it; and no
/// argument at all is none either.
pub proof fn law_unknown_commands(args: Seq<Seq<u8>>, config: ConfigView)
    ensures
        args.len() == 0 ==> crate::command::job(args, config) == Err::<JobView, Option<Seq<char>>>(
            None,
        ),
        args.len() > 0 && args[0] != seq![0x65u8, 0x78, 0x74, 0x72, 0x61, 0x63, 0x74]
            && crate::spelling_laws::is_simple(config.out.platform, args[0]) && (args[0].len() == 0
            || (!crate::spelling_laws::ends_name(config.out.platform, args[0].last())
            && args[0].last() != 0x2e && !(args[0].len() >= 4 && args[0][args[0].len() - 4] == 0x2e
            && spells_gma(args[0].skip(args[0].len() - 3))))) ==> crate::command::job(args, config)
            == Err::<JobView, Option<Seq<char>>>(Some("Unknown command"@)),
        args.len() > 0 && args[0] != seq![0x65u8, 0x78, 0x74, 0x72, 0x61, 0x63, 0x74] && !(exists|
            i: int,
        |
            0 <= i && i + 4 <= args[0].len() && args[0][i] == 0x2e && spells_gma(
                #[trigger] args[0].subrange(i + 1, i + 4),
            )) ==> crate::command::job(args, config) == Err::<JobView, Option<Seq<char>>>(
            Some("Unknown command"@),
        ),
{
    let platform = config.out.platform;
    reveal_strlit("extract");
    lemma_bytes("extract", seq![0x65u8, 0x78, 0x74, 0x72, 0x61, 0x63, 0x74]);
    if args.len() > 0 {
        let s = args[0];
        if let Some(ext) = platform.extension(s) {
            lemma_is_gma(ext);
            crate::spelling_laws::law_extension_is_cut_off(platform, s);
            if spells_gma(ext) {
                let n = platform.without_extension(s).len() as int;
                let whole = platform.without_extension(s) + seq![0x2eu8] + ext;
                assert(s[n] == whole[n]);
                assert(s.subrange(n + 1, n + 4) =~= ext) by {
                    assert forall|k: int| 0 <= k < 3 implies s[n + 1 + k] == ext[k] by {
                        assert(s[n + 1 + k] == whole[n + 1 + k]);
                    }
                }
            }
            if crate::spelling_laws::is_simple(platform, s) && s.len() > 0 && !crate::spelling_laws::ends_name(platform, s.last()) && s.last()
                != 0x2e {
                crate::spelling_laws::law_extension_is_at_the_end(platform, s);
            }
        }
    }
}

/// By default as many threads write files as there can be with two of the threads that could run left
/// alone, and no more than three quarters of them busy: the largest such number up to 32, and one
/// where there is none.
pub proof fn law_default_threads(available: nat, n: nat)
    ensures
        ({
            let threads = crate::conf::default_thread_count(available);
            &&& 1 <= threads <= 32
            &&& threads == 1 || (threads + 2 <= available && 4 * threads <= 3 * available)
            &&& n <= 32 && n + 2 <= available && 4 * n <= 3 * available ==> n <= threads
        }),
{
}

/// Unless told otherwise there is no output folder yet, 256 MiB of contents may wait in memory, and as
/// many threads write files as the threads that could run make the default, where one is taken to run if
/// it is not known.
pub proof fn law_default_config(platform: Platform, available: Option<usize>)
    ensures
        ({
            let config = crate::conf::default_config(platform, available);
            &&& config.out.platform == platform
            &&& config.out.bytes().len() == 0
            &&& config.out.is_empty()
            &&& config.max_io_memory_usage == 256 * 1024 * 1024
            &&& available matches Some(n) ==> config.max_io_threads
                == crate::conf::default_thread_count(n as nat)
            &&& available is None ==> config.max_io_threads == crate::conf::default_thread_count(1)
        }),
{
}

/// The names of the options and the arguments that they consist of.
pub proof fn law_option_names(value: Seq<u8>)
    ensures
        OptionGroup::Threads(value).args() == seq![
            seq![
                0x2du8,
                0x6d,
                0x61,
                0x78,
                0x2d,
                0x69,
                0x6f,
                0x2d,
                0x74,
                0x68,
                0x72,
                0x65,
                0x61,
                0x64,
                0x73,
            ],
            value,
        ],
        OptionGroup::Memory(value).args() == seq![
            seq![
                0x2du8,
                0x6d,
                0x61,
                0x78,
                0x2d,
                0x69,
                0x6f,
                0x2d,
                0x6d,
                0x65,
                0x6d,
                0x6f,
                0x72,
                0x79,
                0x2d,
                0x75,
                0x73,
                0x61,
                0x67,
                0x65,
            ],
            value,
        ],
        OptionGroup::Out(value).args() == seq![seq![0x2du8, 0x6f, 0x75, 0x74], value],
        OptionGroup::Stdin.args() == seq![seq![0x2du8, 0x73, 0x74, 0x64, 0x69, 0x6e]],
        OptionGroup::File(value).args() == seq![seq![0x2du8, 0x66, 0x69, 0x6c, 0x65], value],
{
    reveal_strlit("-max-io-threads");
    reveal_strlit("-max-io-memory-usage");
    reveal_strlit("-out");
    reveal_strlit("-stdin");
    reveal_strlit("-file");
    lemma_bytes(
        "-max-io-threads",
        seq![
            0x2du8,
            0x6d,
            0x61,
            0x78,
            0x2d,
            0x69,
            0x6f,
            0x2d,
            0x74,
            0x68,
            0x72,
            0x65,
            0x61,
            0x64,
            0x73,
        ],
    );
    lemma_bytes(
        "-max-io-memory-usage",
        seq![
            0x2du8,
            0x6d,
            0x61,
            0x78,
            0x2d,
            0x69,
            0x6f,
            0x2d,
            0x6d,
            0x65,
            0x6d,
            0x6f,
            0x72,
            0x79,
            0x2d,
            0x75,
            0x73,
            0x61,
            0x67,
            0x65,
        ],
    );
    lemma_bytes("-out", seq![0x2du8, 0x6f, 0x75, 0x74]);
    lemma_bytes("-stdin", seq![0x2du8, 0x73, 0x74, 0x64, 0x69, 0x6e]);
    lemma_bytes("-file", seq![0x2du8, 0x66, 0x69, 0x6c, 0x65]);
}

/// Whether the options all have a value that they take: a number, or something that is not empty.
pub open spec fn have_values(groups: Seq<OptionGroup>) -> bool {
    forall|k: int|
        0 <= k < groups.len() ==> match #[trigger] groups[k] {
            OptionGroup::Threads(value) => value.len() > 0 && crate::conf::count(value) is Some,
            OptionGroup::Memory(value) => value.len() > 0 && crate::conf::count(value) is Some,
            OptionGroup::Out(value) => value.len() > 0,
            OptionGroup::Stdin => true,
            OptionGroup::File(value) => value.len() > 0,
        }
}

/// Whether the `k`th option is of the kind of `like`, and none behind it is.
pub open spec fn is_last_like(groups: Seq<OptionGroup>, k: int, like: OptionGroup) -> bool {
    &&& 0 <= k < groups.len()
    &&& groups[k].clashes(like)
    &&& forall|l: int| k < l < groups.len() ==> !(#[trigger] groups[l]).clashes(like)
}

/// Whether no option is of the kind of `like`.
pub open spec fn is_none_like(groups: Seq<OptionGroup>, like: OptionGroup) -> bool {
    forall|l: int| 0 <= l < groups.len() ==> !(#[trigger] groups[l]).clashes(like)
}

/// Whether a setting of a kind is that of the last option of the kind, or else what it was.
spec fn is_as_told(
    groups: Seq<OptionGroup>,
    config: ConfigView,
    input: Option<InView>,
    after: ConfigView,
    input_after: Option<InView>,
) -> bool {
    &&& after.out.platform == config.out.platform
    &&& forall|k: int|
        #![trigger groups[k]]
        0 <= k < groups.len() && is_last_like(groups, k, groups[k]) ==> crate::conf::is_set_by(
            groups[k],
            after,
            input_after,
        )
    &&& is_none_like(groups, OptionGroup::Threads(Seq::empty())) ==> after.max_io_threads
        == config.max_io_threads
    &&& is_none_like(groups, OptionGroup::Memory(Seq::empty())) ==> after.max_io_memory_usage
        == config.max_io_memory_usage
    &&& is_none_like(groups, OptionGroup::Out(Seq::empty())) ==> after.out == config.out
    &&& is_none_like(groups, OptionGroup::Stdin) ==> input_after == input
    &&& !is_none_like(groups, OptionGroup::Stdin) ==> input_after is Some
}

/// The last option of a kind counts.
proof fn lemma_last_counts(groups: Seq<OptionGroup>, config: ConfigView, input: Option<InView>)
    ensures
        ({
            let (after, input_after) = crate::conf::all_applied(groups, config, input);
            is_as_told(groups, config, input, after, input_after)
        }),
    decreases groups.len(),
{
    if groups.len() > 0 {
        let rest = groups.drop_first();
        let first = groups[0];
        let (c, i) = first.applied(config, input);
        lemma_last_counts(rest, c, i);
        let (after, input_after) = crate::conf::all_applied(groups, config, input);
        assert forall|like: OptionGroup| #[trigger] is_none_like(groups, like) implies is_none_like(
            rest,
            like,
        ) && !first.clashes(like) by {
            assert(!groups[0].clashes(like));
            assert forall|l: int| 0 <= l < rest.len() implies !(#[trigger] rest[l]).clashes(
                like,
            ) by {
                assert(rest[l] == groups[l + 1]);
            }
        }
        assert forall|k: int|
            #![trigger groups[k]]
            0 <= k < groups.len() && is_last_like(groups, k, groups[k]) implies crate::conf::is_set_by(
            groups[k],
            after,
            input_after,
        ) by {
            if k > 0 {
                assert(rest[k - 1] == groups[k]);
                assert forall|l: int| k - 1 < l < rest.len() implies !(#[trigger] rest[l]).clashes(
                    groups[k],
                ) by {
                    assert(rest[l] == groups[l + 1]);
                }
                assert(is_last_like(rest, k - 1, rest[k - 1]));
            } else {
                assert forall|l: int| 0 <= l < rest.len() implies !(#[trigger] rest[l]).clashes(
                    first,
                ) by {
                    assert(rest[l] == groups[l + 1]);
                }
                assert(is_none_like(rest, first));
                match first {
                    OptionGroup::Threads(_) => {
                        assert(is_none_like(rest, OptionGroup::Threads(Seq::empty())));
                    },
                    OptionGroup::Memory(_) => {
                        assert(is_none_like(rest, OptionGroup::Memory(Seq::empty())));
                    },
                    OptionGroup::Out(_) => {
                        assert(is_none_like(rest, OptionGroup::Out(Seq::empty())));
                    },
                    _ => {
                        assert(is_none_like(rest, OptionGroup::Stdin));
                    },
                }
            }
        }
        if !is_none_like(groups, OptionGroup::Stdin) && is_none_like(rest, OptionGroup::Stdin) {
            if !first.clashes(OptionGroup::Stdin) {
                assert forall|l: int| 0 <= l < groups.len() implies !(#[trigger] groups[l]).clashes(
                    OptionGroup::Stdin,
                ) by {
                    if l > 0 {
                        assert(rest[l - 1] == groups[l]);
                    }
                }
            }
        }
    }
}

/// What options come to that all have a value that they take, in whatever order and however often
/// they come. Each setting is that of the last option that sets it, and is as it was where there is
/// none. If there is no output folder then, it is the path of the archive less
/// its extension, unless that comes from a stream: then the folder is missed. An archive that is
/// named nowhere is missed.
pub proof fn law_options(groups: Seq<OptionGroup>, config: ConfigView, k: int)
    requires
        have_values(groups),
    ensures
        ({
            let parsed = crate::conf::parse_args(crate::conf::all_args(groups), config);
            let platform = config.out.platform;
            let is_named = !is_none_like(groups, OptionGroup::Out(Seq::empty()))
                || config.out.root.len() > 0 || config.out.parts.len() > 0;
            &&& is_none_like(groups, OptionGroup::Stdin) ==> parsed == Err::<JobView, Seq<char>>(
                "Missing -file (the addon you want to extract)"@,
            )
            &&& is_last_like(groups, k, OptionGroup::Stdin) && groups[k] is Stdin && !is_named
                ==> parsed == Err::<JobView, Seq<char>>("Missing -out (the folder to extract to)"@)
            &&& is_last_like(groups, k, OptionGroup::Stdin) && (groups[k] is File || is_named) ==> (
            parsed matches Ok(job) && {
                &&& groups[k] is Stdin ==> job.input is Stdin
                &&& groups[k] matches OptionGroup::File(value) ==> (job.input matches InView::File(
                    path,
                ) && path.bytes() == value && path.platform == platform)
                &&& job.out_is_default == !is_named
                &&& job.config.out.platform == platform
                &&& groups[k] is File && !is_named ==> job.config.out.bytes()
                    == platform.without_extension(groups[k]->File_0)
            })
            &&& parsed matches Ok(job) ==> {
                &&& is_last_like(groups, k, OptionGroup::Out(Seq::empty())) ==> groups[k] is Out
                    && job.config.out.bytes() == groups[k]->Out_0
                &&& is_last_like(groups, k, OptionGroup::Threads(Seq::empty())) ==> groups[k]
                    is Threads && crate::conf::count(groups[k]->Threads_0) == Some(
                    job.config.max_io_threads,
                )
                &&& is_last_like(groups, k, OptionGroup::Memory(Seq::empty())) ==> groups[k]
                    is Memory && crate::conf::count(groups[k]->Memory_0) == Some(
                    job.config.max_io_memory_usage,
                )
                &&& is_none_like(groups, OptionGroup::Out(Seq::empty())) && is_named
                    ==> job.config.out == config.out
                &&& is_none_like(groups, OptionGroup::Threads(Seq::empty()))
                    ==> job.config.max_io_threads == config.max_io_threads
                &&& is_none_like(groups, OptionGroup::Memory(Seq::empty()))
                    ==> job.config.max_io_memory_usage == config.max_io_memory_usage
            }
        }),
{
    let args = crate::conf::all_args(groups);
    assert(args.skip(0) =~= args);
    assert forall|j: int| 0 <= j < groups.len() implies (#[trigger] groups[j]).valid() by {}
    crate::conf::lemma_take_groups(args, 0, groups, config, None);
    lemma_last_counts(groups, config, None);
    let (after, input) = crate::conf::all_applied(groups, config, None);
    if 0 <= k < groups.len() {
        let group = groups[k];
        if is_last_like(groups, k, OptionGroup::Stdin) || is_last_like(
            groups,
            k,
            OptionGroup::Out(Seq::empty()),
        ) || is_last_like(groups, k, OptionGroup::Threads(Seq::empty())) || is_last_like(
            groups,
            k,
            OptionGroup::Memory(Seq::empty()),
        ) {
            assert forall|l: int| k < l < groups.len() implies !(#[trigger] groups[l]).clashes(
                group,
            ) by {}
            assert(is_last_like(groups, k, group));
            assert(crate::conf::is_set_by(group, after, input));
        }
    }
    if !is_none_like(groups, OptionGroup::Out(Seq::empty())) {
        let l = lemma_some_last(groups, OptionGroup::Out(Seq::empty()));
        let named = groups[l];
        assert forall|m: int| l < m < groups.len() implies !(#[trigger] groups[m]).clashes(
            named,
        ) by {}
        assert(is_last_like(groups, l, named));
        assert(crate::conf::is_set_by(groups[l], after, input));
        assert(named.valid());
        assert(!after.out.is_empty());
    }
}

/// Where there is an option of a kind, there is a last one.
proof fn lemma_some_last(groups: Seq<OptionGroup>, like: OptionGroup) -> (k: int)
    requires
        !is_none_like(groups, like),
    ensures
        is_last_like(groups, k, like),
    decreases groups.len(),
{
    if groups.len() == 0 {
        assert(is_none_like(groups, like));
        0
    } else if groups.last().clashes(like) {
        groups.len() - 1
    } else {
        let front = groups.drop_last();
        if is_none_like(front, like) {
            assert forall|l: int| 0 <= l < groups.len() implies !(#[trigger] groups[l]).clashes(
                like,
            ) by {
                if l < front.len() {
                    assert(front[l] == groups[l]);
                }
            }
        }
        let k = lemma_some_last(front, like);
        assert(front[k] == groups[k]);
        assert forall|l: int| k < l < groups.len() implies !(#[trigger] groups[l]).clashes(
            like,
        ) by {
            if l < front.len() {
                assert(front[l] == groups[l]);
            }
        }
        k
    }
}

/// What is wrong with the first argument of `rest` that no option takes, whatever options come before
/// it: it is not UTF-8, or is the name of an option without a value that it takes, or is no option.
pub proof fn law_wrong_options(groups: Seq<OptionGroup>, rest: Seq<Seq<u8>>, config: ConfigView)
    requires
        have_values(groups),
        rest.len() > 0,
    ensures
        ({
            let parsed = crate::conf::parse_args(crate::conf::all_args(groups) + rest, config);
            let arg = rest[0];
            let has_value = rest.len() > 1 && rest[1].len() > 0;
            let has_count = has_value && crate::conf::count(rest[1]) is Some;
            let is_named = |group: OptionGroup| arg == group.args()[0];
            let none = Seq::<u8>::empty();
            &&& !vstd::utf8::valid_utf8(arg) ==> parsed == Err::<JobView, Seq<char>>(
                "Non-UTF-8 argument"@,
            )
            &&& is_named(OptionGroup::Threads(none)) && !has_count ==> parsed == Err::<
                JobView,
                Seq<char>,
            >("Expected integer greater than zero for -max-io-threads"@)
            &&& is_named(OptionGroup::Memory(none)) && !has_count ==> parsed == Err::<
                JobView,
                Seq<char>,
            >("Expected integer greater than zero for -max-io-memory-usage"@)
            &&& is_named(OptionGroup::Out(none)) && !has_value ==> parsed == Err::<
                JobView,
                Seq<char>,
            >("Expected a value after -out"@)
            &&& is_named(OptionGroup::File(none)) && !has_value ==> parsed == Err::<
                JobView,
                Seq<char>,
            >("Expected a value after -file"@)
            &&& vstd::utf8::valid_utf8(arg) && !is_named(OptionGroup::Threads(none)) && !is_named(
                OptionGroup::Memory(none),
            ) && !is_named(OptionGroup::Out(none)) && !is_named(OptionGroup::File(none))
                && !is_named(OptionGroup::Stdin) ==> parsed == Err::<JobView, Seq<char>>(
                "Unknown argument '"@ + vstd::utf8::decode_utf8(arg) + "'"@,
            )
        }),
{
    let front = crate::conf::all_args(groups);
    let args = front + rest;
    assert(args.skip(0) =~= args);
    assert forall|j: int| 0 <= j < groups.len() implies (#[trigger] groups[j]).valid() by {}
    crate::conf::lemma_option_names();
    lemma_take_before(args, 0, groups, rest, config, None);
    let n = front.len() as int;
    assert(args[n] == rest[0]);
    if rest.len() > 1 {
        assert(args[n + 1] == rest[1]);
    }
}

/// Options are taken one after the other, whatever follows them.
proof fn lemma_take_before(
    args: Seq<Seq<u8>>,
    i: int,
    groups: Seq<OptionGroup>,
    rest: Seq<Seq<u8>>,
    config: ConfigView,
    input: Option<InView>,
)
    requires
        0 <= i <= args.len(),
        args.skip(i) == crate::conf::all_args(groups) + rest,
        forall|k: int| 0 <= k < groups.len() ==> (#[trigger] groups[k]).valid(),
    ensures
        ({
            let (c, inp) = crate::conf::all_applied(groups, config, input);
            crate::conf::take_args(args, i, config, input) == crate::conf::take_args(
                args,
                i + crate::conf::all_args(groups).len(),
                c,
                inp,
            )
        }),
    decreases groups.len(),
{
    if groups.len() > 0 {
        crate::conf::lemma_option_names();
        let group = groups[0];
        let others = groups.drop_first();
        let more = crate::conf::all_args(others);
        let n = group.args().len() as int;
        assert(group.valid());
        assert(args.skip(i) =~= group.args() + (more + rest));
        assert(args.skip(i).len() >= n);
        assert(args.skip(i)[0] == group.args()[0]);
        assert(args[i] == group.args()[0]);
        if n == 2 {
            assert(args.skip(i)[1] == group.args()[1]);
            assert(args[i + 1] == group.args()[1]);
        }
        assert(args.skip(i + n) =~= args.skip(i).skip(n));
        assert((group.args() + (more + rest)).skip(n) =~= more + rest);
        assert forall|k: int| 0 <= k < others.len() implies (#[trigger] others[k]).valid() by {
            assert(others[k] == groups[k + 1]);
        }
        let (c, inp) = group.applied(config, input);
        lemma_take_before(args, i + n, others, rest, c, inp);
    }
}

} // verus!
