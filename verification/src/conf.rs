//! How to extract, and how to say so on the command line.

use vstd::prelude::*;
use vstd::string::*;

use crate::path::{OsPath, PathView, Platform};
use crate::text::{join3, leak, same_bytes, utf8_text};

verus! {

/// A number that is not zero.
#[derive(Clone, Copy, Debug, PartialEq, Eq)]
pub struct NonZeroUsize {
    value: usize,
}

impl View for NonZeroUsize {
    type V = nat;

    closed spec fn view(&self) -> nat {
        self.value as nat
    }
}

impl NonZeroUsize {
    #[verifier::type_invariant]
    spec fn is_not_zero(self) -> bool {
        self.value > 0
    }

    /// `value`, unless it is zero.
    pub fn new(value: usize) -> (n: Option<NonZeroUsize>)
        ensures
            match n {
                Some(n) => n@ == value && value > 0,
                None => value == 0,
            },
    {
        if value == 0 {
            None
        } else {
            Some(NonZeroUsize { value })
        }
    }

    /// The number.
    pub fn get(self) -> (value: usize)
        ensures
            value == self@,
            value > 0,
    {
        proof {
            use_type_invariant(&self);
        }
        self.value
    }
}

/// How to extract an archive.
#[derive(Debug)]
pub struct ExtractGmaConfig {
    /// The folder to extract to.
    pub out: OsPath,
    /// How many threads write files.
    pub max_io_threads: NonZeroUsize,
    /// How many bytes of contents may wait in memory to be written.
    pub max_io_memory_usage: NonZeroUsize,
}

/// Where the archive comes from.
#[derive(Debug)]
pub enum ExtractGmadIn {
    Stdin,
    File(OsPath),
}

/// The arguments were of no use. What is wrong with them, where it can be said.
#[derive(Debug)]
pub struct PrintHelp(pub Option<&'static str>);

/// What an [`ExtractGmaConfig`] holds.
#[verifier::ext_equal]
pub struct ConfigView {
    pub out: PathView,
    pub max_io_threads: nat,
    pub max_io_memory_usage: nat,
}

/// What an [`ExtractGmadIn`] holds.
#[verifier::ext_equal]
pub enum InView {
    Stdin,
    File(PathView),
}

impl View for ExtractGmaConfig {
    type V = ConfigView;

    open spec fn view(&self) -> ConfigView {
        ConfigView {
            out: self.out@,
            max_io_threads: self.max_io_threads@,
            max_io_memory_usage: self.max_io_memory_usage@,
        }
    }
}

impl View for ExtractGmadIn {
    type V = InView;

    open spec fn view(&self) -> InView {
        match self {
            ExtractGmadIn::Stdin => InView::Stdin,
            ExtractGmadIn::File(path) => InView::File(path@),
        }
    }
}

impl PrintHelp {
    /// Whether this is the complaint `message`.
    pub open spec fn says(self, message: Seq<char>) -> bool {
        self.0 matches Some(text) && text@ == message
    }
}

/// How much contents may wait in memory unless told otherwise: 256 MiB.
pub const DEFAULT_MEMORY: usize = 0x1000_0000;

/// How many threads write files where `available` could run: two fewer, but no more than three
/// quarters of them, and always from 1 to 32.
pub open spec fn default_thread_count(available: nat) -> nat {
    let spare = if available >= 2 {
        (available - 2) as nat
    } else {
        0
    };
    let share = available * 3 / 4;
    let wanted = if spare <= share {
        spare
    } else {
        share
    };
    if wanted < 1 {
        1
    } else if wanted > 32 {
        32
    } else {
        wanted
    }
}

/// The path that an argument names.
pub open spec fn arg_path(platform: Platform, arg: Seq<u8>) -> PathView {
    PathView { platform, root: arg, parts: Seq::empty() }
}

/// `s` without a plus sign at its start.
pub open spec fn unsigned(s: Seq<u8>) -> Seq<u8> {
    if s.len() > 0 && s[0] == 0x2b {
        s.skip(1)
    } else {
        s
    }
}

/// Whether `s` consists of decimal digits.
pub open spec fn all_digits(s: Seq<u8>) -> bool {
    forall|i: int| 0 <= i < s.len() ==> 0x30 <= #[trigger] s[i] <= 0x39
}

/// The number that the digits `s` spell.
pub open spec fn number(s: Seq<u8>) -> int
    decreases s.len(),
{
    if s.len() == 0 {
        0
    } else {
        10 * number(s.drop_last()) + (s.last() - 0x30)
    }
}

/// The number that an argument spells in decimal, if it is from 1 to the largest `usize`. A plus
/// sign may come first.
pub open spec fn count(arg: Seq<u8>) -> Option<nat> {
    let digits = unsigned(arg);
    if digits.len() == 0 || !all_digits(digits) || number(digits) <= 0 || number(digits)
        > usize::MAX {
        None
    } else {
        Some(number(digits) as nat)
    }
}

/// What the arguments from the `i`th on make of `config` and `input`, or what is wrong with them.
pub open spec fn take_args(
    args: Seq<Seq<u8>>,
    i: int,
    config: ConfigView,
    input: Option<InView>,
) -> Result<(ConfigView, Option<InView>), Seq<char>>
    decreases args.len() - i,
{
    let value = if i + 1 < args.len() && args[i + 1].len() > 0 {
        Some(args[i + 1])
    } else {
        None
    };
    if i < 0 || i >= args.len() {
        Ok((config, input))
    } else if !vstd::utf8::valid_utf8(args[i]) {
        Err("Non-UTF-8 argument"@)
    } else if args[i] == "-max-io-threads".spec_bytes() {
        match value {
            Some(v) if count(v) is Some => take_args(
                args,
                i + 2,
                ConfigView { max_io_threads: count(v)->0, ..config },
                input,
            ),
            _ => Err("Expected integer greater than zero for -max-io-threads"@),
        }
    } else if args[i] == "-max-io-memory-usage".spec_bytes() {
        match value {
            Some(v) if count(v) is Some => take_args(
                args,
                i + 2,
                ConfigView { max_io_memory_usage: count(v)->0, ..config },
                input,
            ),
            _ => Err("Expected integer greater than zero for -max-io-memory-usage"@),
        }
    } else if args[i] == "-out".spec_bytes() {
        match value {
            Some(v) => take_args(
                args,
                i + 2,
                ConfigView { out: arg_path(config.out.platform, v), ..config },
                input,
            ),
            None => Err("Expected a value after -out"@),
        }
    } else if args[i] == "-stdin".spec_bytes() {
        take_args(args, i + 1, config, Some(InView::Stdin))
    } else if args[i] == "-file".spec_bytes() {
        match value {
            Some(v) => take_args(
                args,
                i + 2,
                config,
                Some(InView::File(arg_path(config.out.platform, v))),
            ),
            None => Err("Expected a value after -file"@),
        }
    } else {
        Err("Unknown argument '"@ + vstd::utf8::decode_utf8(args[i]) + "'"@)
    }
}

/// What to do as the arguments say.
#[verifier::ext_equal]
pub struct JobView {
    pub config: ConfigView,
    pub input: InView,
    pub out_is_default: bool,
}

impl JobView {
    /// Whether what is in the place of the output folder keeps the job from being done: the folder
    /// was not named, and there is something that is no folder.
    pub open spec fn is_in_the_way(self, present: bool, is_dir: bool) -> bool {
        self.out_is_default && present && !is_dir
    }
}

/// What the arguments ask for, where `config` holds unless they say otherwise; or what is wrong
/// with them. Where they name no output folder, it is the archive's own path less its extension.
pub open spec fn parse_args(args: Seq<Seq<u8>>, config: ConfigView) -> Result<
    JobView,
    Seq<char>,
> {
    match take_args(args, 0, config, None) {
        Err(message) => Err(message),
        Ok((_, None)) => Err("Missing -file (the addon you want to extract)"@),
        Ok((config, Some(input))) => if !config.out.is_empty() {
            Ok(JobView { config, input, out_is_default: false })
        } else {
            match input {
                InView::Stdin => Err("Missing -out (the folder to extract to)"@),
                InView::File(path) => Ok(
                    JobView {
                        config: ConfigView { out: path.without_extension(), ..config },
                        input,
                        out_is_default: true,
                    },
                ),
            }
        },
    }
}

/// What to do as the arguments say.
#[derive(Debug)]
pub struct ExtractJob {
    pub config: ExtractGmaConfig,
    pub input: ExtractGmadIn,
    /// Whether the output folder was not named, but follows from the path of the archive. Then
    /// [`ExtractJob::confirm`] may object to it.
    pub out_is_default: bool,
}

impl View for ExtractJob {
    type V = JobView;

    open spec fn view(&self) -> JobView {
        JobView {
            config: self.config@,
            input: self.input@,
            out_is_default: self.out_is_default,
        }
    }
}

/// How many threads write files where `available` could run.
pub fn default_threads_for(available: usize) -> (threads: NonZeroUsize)
    requires
        available * 3 <= usize::MAX,
    ensures
        threads@ == default_thread_count(available as nat),
{
    let spare = available.saturating_sub(2);
    let share = available * 3 / 4;
    let wanted = if spare <= share {
        spare
    } else {
        share
    };
    let value: usize = if wanted < 1 {
        1
    } else if wanted > 32 {
        32
    } else {
        wanted
    };
    NonZeroUsize { value }
}

/// How many threads could run, if it is known; one if it is not.
pub open spec fn known_threads(available: Option<usize>) -> nat {
    match available {
        Some(n) => n as nat,
        None => 1,
    }
}

/// How many threads write files where `available` could run, if that is known; one could if it is
/// not.
pub fn get_default_threads(available: Option<usize>) -> (threads: NonZeroUsize)
    requires
        available matches Some(n) ==> n * 3 <= usize::MAX,
    ensures
        threads@ == default_thread_count(
            match available {
                Some(n) => n as nat,
                None => 1,
            },
        ),
        threads@ == default_thread_count(known_threads(available)),
{
    match available {
        Some(n) => default_threads_for(n),
        None => default_threads_for(1),
    }
}

/// The number that an argument spells in decimal, if it is one that a `usize` holds and not zero.
pub fn parse_count(arg: &[u8]) -> (n: Option<NonZeroUsize>)
    ensures
        match n {
            Some(n) => count(arg@) == Some(n@),
            None => count(arg@) is None,
        },
{
    let digits = if arg.len() > 0 && arg[0] == 0x2b {
        vstd::slice::slice_subrange(arg, 1, arg.len())
    } else {
        arg
    };
    assert(digits@ =~= unsigned(arg@));
    if digits.len() == 0 {
        return None;
    }
    let mut value: usize = 0;
    let mut i: usize = 0;
    while i < digits.len()
        invariant
            i <= digits@.len(),
            digits@ == unsigned(arg@),
            all_digits(digits@.take(i as int)),
            value == number(digits@.take(i as int)),
        decreases digits@.len() - i,
    {
        let d = digits[i];
        if d < 0x30 || d > 0x39 {
            assert(!all_digits(digits@));
            return None;
        }
        let ghost next = digits@.take(i + 1);
        proof {
            assert(next.drop_last() =~= digits@.take(i as int));
            assert(next.last() == d);
            assert forall|j: int| 0 <= j < next.len() implies 0x30 <= #[trigger] next[j] <= 0x39 by {
                if j < i {
                    assert(next[j] == digits@.take(i as int)[j]);
                }
            }
            if all_digits(digits@) {
                lemma_number_grows(digits@, i + 1);
            }
        }
        let shifted = match value.checked_mul(10) {
            Some(shifted) => shifted,
            None => return None,
        };
        value = match shifted.checked_add((d - 0x30) as usize) {
            Some(value) => value,
            None => return None,
        };
        i = i + 1;
    }
    assert(digits@.take(i as int) =~= digits@);
    NonZeroUsize::new(value)
}

/// More digits never make a smaller number.
proof fn lemma_number_grows(s: Seq<u8>, n: int)
    requires
        0 <= n <= s.len(),
        all_digits(s),
    ensures
        0 <= number(s.take(n)) <= number(s),
    decreases s.len() + n,
{
    if n < s.len() {
        let t = s.drop_last();
        assert(all_digits(t)) by {
            assert forall|j: int| 0 <= j < t.len() implies 0x30 <= #[trigger] t[j] <= 0x39 by {
                assert(t[j] == s[j]);
            }
        }
        assert(t.take(n) =~= s.take(n));
        lemma_number_grows(t, n);
        assert(0x30 <= s[s.len() - 1]);
    } else {
        assert(s.take(n) =~= s);
        if n > 0 {
            lemma_number_grows(s, n - 1);
            assert(s.take(n - 1) =~= s.drop_last());
            assert(0x30 <= s[s.len() - 1]);
        }
    }
}

/// The value that follows the `i`th argument, if there is one and it is not empty.
fn value_after(args: &Vec<Vec<u8>>, i: usize) -> (value: Option<&Vec<u8>>)
    requires
        i < args@.len(),
    ensures
        match value {
            Some(v) => i + 1 < args@.len() && v@ == args@[i + 1]@ && v@.len() > 0,
            None => i + 1 >= args@.len() || args@[i + 1]@.len() == 0,
        },
{
    if args.len() - i > 1 && args[i + 1].len() > 0 {
        Some(&args[i + 1])
    } else {
        None
    }
}

/// The number that follows the `i`th argument.
fn count_after(args: &Vec<Vec<u8>>, i: usize) -> (n: Option<NonZeroUsize>)
    requires
        i < args@.len(),
    ensures
        match n {
            Some(n) => {
                &&& i + 1 < args@.len()
                &&& args@[i + 1]@.len() > 0
                &&& count(args@[i + 1]@) == Some(n@)
            },
            None => i + 1 >= args@.len() || count(args@[i + 1]@) is None,
        },
{
    match value_after(args, i) {
        Some(v) => parse_count(v.as_slice()),
        None => None,
    }
}

/// What holds unless told otherwise, where `available` threads could run, if that is known.
pub open spec fn default_config(platform: Platform, available: Option<usize>) -> ConfigView {
    ConfigView {
        out: arg_path(platform, Seq::empty()),
        max_io_threads: default_thread_count(known_threads(available)),
        max_io_memory_usage: DEFAULT_MEMORY as nat,
    }
}

impl ExtractGmaConfig {
    /// What holds unless told otherwise, where `available` threads could run, if that is known:
    /// no output folder yet, a share of the threads, and 256 MiB.
    pub fn default_for(platform: Platform, available: Option<usize>) -> (config: ExtractGmaConfig)
        requires
            available matches Some(n) ==> n * 3 <= usize::MAX,
        ensures
            config@ == (ConfigView {
                out: PathView { platform, root: Seq::empty(), parts: Seq::empty() },
                max_io_threads: default_thread_count(
                    match available {
                        Some(n) => n as nat,
                        None => 1,
                    },
                ),
                max_io_memory_usage: DEFAULT_MEMORY as nat,
            }),
            config@ == default_config(platform, available),
    {
        ExtractGmaConfig {
            out: OsPath::new(platform, Vec::new()),
            max_io_threads: get_default_threads(available),
            max_io_memory_usage: NonZeroUsize { value: DEFAULT_MEMORY },
        }
    }

    /// What the arguments ask for, where `defaults` holds unless they say otherwise.
    pub fn from_args(defaults: ExtractGmaConfig, args: &Vec<Vec<u8>>) -> (out: Result<
        ExtractJob,
        PrintHelp,
    >)
        ensures
            match parse_args(crate::path::views(args@), defaults@) {
                Ok(job) => out matches Ok(j) && j@ == job,
                Err(message) => out matches Err(help) && help.says(message),
            },
    {
        let ghost all = crate::path::views(args@);
        let ghost given = defaults@;
        let platform = defaults.out.platform;
        let mut config = defaults;
        let mut input: Option<ExtractGmadIn> = None;
        let mut i: usize = 0;
        while i < args.len()
            invariant
                i <= args@.len(),
                all == crate::path::views(args@),
                given == defaults@,
                platform == config@.out.platform,
                take_args(all, i as int, config@, in_view(input)) == take_args(all, 0, given, None),
            decreases args@.len() - i,
        {
            let arg = args[i].as_slice();
            assert(all[i as int] == arg@);
            assert(i + 1 < args@.len() ==> all[i + 1] == args@[i + 1]@);
            let name = match utf8_text(arg) {
                Some(name) => name,
                None => return Err(PrintHelp(Some("Non-UTF-8 argument"))),
            };
            if same_bytes(arg, "-max-io-threads".as_bytes()) {
                config.max_io_threads = match count_after(args, i) {
                    Some(n) => n,
                    None => return Err(
                        PrintHelp(
                            Some("Expected integer greater than zero for -max-io-threads"),
                        ),
                    ),
                };
                i = i + 2;
            } else if same_bytes(arg, "-max-io-memory-usage".as_bytes()) {
                config.max_io_memory_usage = match count_after(args, i) {
                    Some(n) => n,
                    None => return Err(
                        PrintHelp(
                            Some("Expected integer greater than zero for -max-io-memory-usage"),
                        ),
                    ),
                };
                i = i + 2;
            } else if same_bytes(arg, "-out".as_bytes()) {
                let value = match value_after(args, i) {
                    Some(value) => value,
                    None => return Err(PrintHelp(Some("Expected a value after -out"))),
                };
                config.out = OsPath::new(platform, vstd::slice::slice_to_vec(value.as_slice()));
                i = i + 2;
            } else if same_bytes(arg, "-stdin".as_bytes()) {
                input = Some(ExtractGmadIn::Stdin);
                i = i + 1;
            } else if same_bytes(arg, "-file".as_bytes()) {
                let value = match value_after(args, i) {
                    Some(value) => value,
                    None => return Err(PrintHelp(Some("Expected a value after -file"))),
                };
                input = Some(
                    ExtractGmadIn::File(
                        OsPath::new(platform, vstd::slice::slice_to_vec(value.as_slice())),
                    ),
                );
                i = i + 2;
            } else {
                return Err(PrintHelp(Some(leak(join3("Unknown argument '", name, "'")))));
            }
        }
        let input = match input {
            Some(input) => input,
            None => return Err(PrintHelp(Some("Missing -file (the addon you want to extract)"))),
        };
        if !config.out.is_empty() {
            return Ok(ExtractJob { config, input, out_is_default: false });
        }
        match &input {
            ExtractGmadIn::Stdin => Err(
                PrintHelp(Some("Missing -out (the folder to extract to)")),
            ),
            ExtractGmadIn::File(path) => {
                config.out = path.strip_extension();
                Ok(ExtractJob { config, input, out_is_default: true })
            },
        }
    }
}

/// What an input holds, if there is one.
spec fn in_view(input: Option<ExtractGmadIn>) -> Option<InView> {
    match input {
        Some(input) => Some(input@),
        None => None,
    }
}

impl ExtractJob {
    /// What to do, unless the output folder was not named and something that is no folder is in
    /// its place. `present` tells whether there is something, and `is_dir` whether that is a
    /// folder.
    pub fn confirm(self, present: bool, is_dir: bool) -> (out: Result<
        (ExtractGmaConfig, ExtractGmadIn),
        PrintHelp,
    >)
        ensures
            match out {
                Ok((config, input)) => {
                    &&& !(self.out_is_default && present && !is_dir)
                    &&& config == self.config
                    &&& input == self.input
                },
                Err(help) => {
                    &&& self.out_is_default && present && !is_dir
                    &&& help.says(
                        "Default output path exists as a file. Please specify an output folder with -out"@,
                    )
                },
            },
            out is Err <==> self@.is_in_the_way(present, is_dir),
    {
        if self.out_is_default && present && !is_dir {
            return Err(
                PrintHelp(
                    Some(
                        "Default output path exists as a file. Please specify an output folder with -out",
                    ),
                ),
            );
        }
        Ok((self.config, self.input))
    }
}

/// The default number of threads is from 1 to 32, and leaves two of the threads that could run
/// alone where there are that many.
pub proof fn law_default_threads_bounded(available: nat)
    ensures
        1 <= default_thread_count(available) <= 32,
        available >= 3 ==> default_thread_count(available) <= available - 2,
        available < 3 ==> default_thread_count(available) == 1,
{
}

/// The default number of threads never drops where more threads could run.
pub proof fn law_default_threads_monotone(fewer: nat, more: nat)
    requires
        fewer <= more,
    ensures
        default_thread_count(fewer) <= default_thread_count(more),
{
}

/// An option on the command line, with its value.
pub enum OptionGroup {
    Threads(Seq<u8>),
    Memory(Seq<u8>),
    Out(Seq<u8>),
    Stdin,
    File(Seq<u8>),
}

impl OptionGroup {
    /// The arguments that the option consists of.
    pub open spec fn args(self) -> Seq<Seq<u8>> {
        match self {
            OptionGroup::Threads(value) => seq!["-max-io-threads".spec_bytes(), value],
            OptionGroup::Memory(value) => seq!["-max-io-memory-usage".spec_bytes(), value],
            OptionGroup::Out(value) => seq!["-out".spec_bytes(), value],
            OptionGroup::Stdin => seq!["-stdin".spec_bytes()],
            OptionGroup::File(value) => seq!["-file".spec_bytes(), value],
        }
    }

    /// The value is one that the option takes.
    pub open spec fn valid(self) -> bool {
        match self {
            OptionGroup::Threads(value) => value.len() > 0 && count(value) is Some,
            OptionGroup::Memory(value) => value.len() > 0 && count(value) is Some,
            OptionGroup::Out(value) => value.len() > 0,
            OptionGroup::Stdin => true,
            OptionGroup::File(value) => value.len() > 0,
        }
    }

    /// Whether the two options set the same thing: the two that tell where the archive comes from
    /// do.
    pub open spec fn clashes(self, other: OptionGroup) -> bool {
        match self {
            OptionGroup::Threads(_) => other is Threads,
            OptionGroup::Memory(_) => other is Memory,
            OptionGroup::Out(_) => other is Out,
            OptionGroup::Stdin => other is Stdin || other is File,
            OptionGroup::File(_) => other is Stdin || other is File,
        }
    }

    /// What the option makes of a configuration and an input.
    pub open spec fn applied(self, config: ConfigView, input: Option<InView>) -> (
        ConfigView,
        Option<InView>,
    ) {
        match self {
            OptionGroup::Threads(value) => (
                ConfigView { max_io_threads: count(value)->0, ..config },
                input,
            ),
            OptionGroup::Memory(value) => (
                ConfigView { max_io_memory_usage: count(value)->0, ..config },
                input,
            ),
            OptionGroup::Out(value) => (
                ConfigView { out: arg_path(config.out.platform, value), ..config },
                input,
            ),
            OptionGroup::Stdin => (config, Some(InView::Stdin)),
            OptionGroup::File(value) => (
                config,
                Some(InView::File(arg_path(config.out.platform, value))),
            ),
        }
    }
}

/// The arguments that the options consist of, one option behind the other.
pub open spec fn all_args(groups: Seq<OptionGroup>) -> Seq<Seq<u8>>
    decreases groups.len(),
{
    if groups.len() == 0 {
        Seq::empty()
    } else {
        groups[0].args() + all_args(groups.drop_first())
    }
}

/// What the options make of a configuration and an input, one after the other.
pub open spec fn all_applied(
    groups: Seq<OptionGroup>,
    config: ConfigView,
    input: Option<InView>,
) -> (ConfigView, Option<InView>)
    decreases groups.len(),
{
    if groups.len() == 0 {
        (config, input)
    } else {
        let (c, i) = groups[0].applied(config, input);
        all_applied(groups.drop_first(), c, i)
    }
}

/// Whether every option has a value that it takes, and no two set the same thing.
pub open spec fn can_be_ordered(groups: Seq<OptionGroup>) -> bool {
    &&& forall|i: int| 0 <= i < groups.len() ==> (#[trigger] groups[i]).valid()
    &&& forall|i: int, j: int|
        0 <= i < j < groups.len() ==> !(#[trigger] groups[i]).clashes(#[trigger] groups[j])
}

/// The names of the options are UTF-8 and differ.
pub proof fn lemma_option_names()
    ensures
        "-max-io-threads".spec_bytes().len() == 15,
        "-max-io-memory-usage".spec_bytes().len() == 20,
        "-out".spec_bytes().len() == 4,
        "-stdin".spec_bytes().len() == 6,
        "-file".spec_bytes().len() == 5,
        vstd::utf8::valid_utf8("-max-io-threads".spec_bytes()),
        vstd::utf8::valid_utf8("-max-io-memory-usage".spec_bytes()),
        vstd::utf8::valid_utf8("-out".spec_bytes()),
        vstd::utf8::valid_utf8("-stdin".spec_bytes()),
        vstd::utf8::valid_utf8("-file".spec_bytes()),
{
    broadcast use vstd::utf8::encode_utf8_valid_utf8;

    reveal_strlit("-max-io-threads");
    reveal_strlit("-max-io-memory-usage");
    reveal_strlit("-out");
    reveal_strlit("-stdin");
    reveal_strlit("-file");
    assert(is_ascii("-max-io-threads"));
    assert(is_ascii("-max-io-memory-usage"));
    assert(is_ascii("-out"));
    assert(is_ascii("-stdin"));
    assert(is_ascii("-file"));
}

/// Options are taken one after the other.
pub proof fn lemma_take_groups(
    args: Seq<Seq<u8>>,
    i: int,
    groups: Seq<OptionGroup>,
    config: ConfigView,
    input: Option<InView>,
)
    requires
        0 <= i <= args.len(),
        args.skip(i) == all_args(groups),
        forall|k: int| 0 <= k < groups.len() ==> (#[trigger] groups[k]).valid(),
    ensures
        take_args(args, i, config, input) == Ok::<(ConfigView, Option<InView>), Seq<char>>(
            all_applied(groups, config, input),
        ),
    decreases groups.len(),
{
    if groups.len() == 0 {
        assert(args.skip(i).len() == 0);
    } else {
        lemma_option_names();
        let group = groups[0];
        let rest = groups.drop_first();
        let n = group.args().len() as int;
        assert(group.valid());
        assert(args.skip(i).len() >= n);
        assert(args.skip(i)[0] == group.args()[0]);
        assert(args[i] == group.args()[0]);
        if n == 2 {
            assert(args.skip(i)[1] == group.args()[1]);
            assert(args[i + 1] == group.args()[1]);
        }
        assert(args.skip(i + n) =~= args.skip(i).skip(n));
        assert((group.args() + all_args(rest)).skip(n) =~= all_args(rest));
        assert forall|k: int| 0 <= k < rest.len() implies (#[trigger] rest[k]).valid() by {
            assert(rest[k] == groups[k + 1]);
        }
        let (c, inp) = group.applied(config, input);
        lemma_take_groups(args, i + n, rest, c, inp);
    }
}

/// What options make of a configuration is told, setting by setting, by the option that sets it.
proof fn lemma_all_applied(groups: Seq<OptionGroup>, config: ConfigView, input: Option<InView>)
    requires
        can_be_ordered(groups),
    ensures
        ({
            let (c, i) = all_applied(groups, config, input);
            &&& c.out.platform == config.out.platform
            &&& forall|k: int| 0 <= k < groups.len() ==> is_set_by(#[trigger] groups[k], c, i)
            &&& (forall|k: int| 0 <= k < groups.len() ==> !((#[trigger] groups[k]) is Threads))
                ==> c.max_io_threads == config.max_io_threads
            &&& (forall|k: int| 0 <= k < groups.len() ==> !((#[trigger] groups[k]) is Memory))
                ==> c.max_io_memory_usage == config.max_io_memory_usage
            &&& (forall|k: int| 0 <= k < groups.len() ==> !((#[trigger] groups[k]) is Out))
                ==> c.out == config.out
            &&& (forall|k: int|
                0 <= k < groups.len() ==> !((#[trigger] groups[k]) is Stdin) && !(groups[k] is File))
                ==> i == input
        }),
    decreases groups.len(),
{
    if groups.len() > 0 {
        let rest = groups.drop_first();
        assert forall|k: int| 0 <= k < rest.len() implies (#[trigger] rest[k]).valid() by {
            assert(rest[k] == groups[k + 1]);
        }
        assert forall|k: int, l: int| 0 <= k < l < rest.len() implies !(#[trigger] rest[k]).clashes(
            #[trigger] rest[l],
        ) by {
            assert(rest[k] == groups[k + 1] && rest[l] == groups[l + 1]);
        }
        let (c1, i1) = groups[0].applied(config, input);
        lemma_all_applied(rest, c1, i1);
        let (c, i) = all_applied(groups, config, input);
        assert forall|k: int| 0 <= k < rest.len() implies !groups[0].clashes(
            #[trigger] rest[k],
        ) by {
            assert(rest[k] == groups[k + 1]);
        }
        assert forall|k: int| 0 <= k < groups.len() implies is_set_by(
            #[trigger] groups[k],
            c,
            i,
        ) by {
            if k > 0 {
                assert(groups[k] == rest[k - 1]);
            }
        }
        if forall|k: int| 0 <= k < groups.len() ==> !((#[trigger] groups[k]) is Threads) {
            assert forall|k: int| 0 <= k < rest.len() implies !((#[trigger] rest[k]) is Threads) by {
                assert(rest[k] == groups[k + 1]);
            }
            assert(!(groups[0] is Threads));
        }
        if forall|k: int| 0 <= k < groups.len() ==> !((#[trigger] groups[k]) is Memory) {
            assert forall|k: int| 0 <= k < rest.len() implies !((#[trigger] rest[k]) is Memory) by {
                assert(rest[k] == groups[k + 1]);
            }
            assert(!(groups[0] is Memory));
        }
        if forall|k: int| 0 <= k < groups.len() ==> !((#[trigger] groups[k]) is Out) {
            assert forall|k: int| 0 <= k < rest.len() implies !((#[trigger] rest[k]) is Out) by {
                assert(rest[k] == groups[k + 1]);
            }
            assert(!(groups[0] is Out));
        }
        if forall|k: int|
            0 <= k < groups.len() ==> !((#[trigger] groups[k]) is Stdin) && !(groups[k] is File) {
            assert forall|k: int| 0 <= k < rest.len() implies !((#[trigger] rest[k]) is Stdin) && !(
            rest[k] is File) by {
                assert(rest[k] == groups[k + 1]);
            }
            assert(!(groups[0] is Stdin) && !(groups[0] is File));
        }
    }
}

/// Whether a configuration and an input have what an option sets.
pub open spec fn is_set_by(group: OptionGroup, config: ConfigView, input: Option<InView>) -> bool {
    match group {
        OptionGroup::Threads(value) => config.max_io_threads == count(value)->0,
        OptionGroup::Memory(value) => config.max_io_memory_usage == count(value)->0,
        OptionGroup::Out(value) => config.out == arg_path(config.out.platform, value),
        OptionGroup::Stdin => input == Some(InView::Stdin),
        OptionGroup::File(value) => input == Some(
            InView::File(arg_path(config.out.platform, value)),
        ),
    }
}

/// Options may come in any order: where every option has a value that it takes, and no two set the
/// same thing, what the arguments ask for does not depend on the order of the options.
pub proof fn law_options_may_come_in_any_order(
    a: Seq<OptionGroup>,
    b: Seq<OptionGroup>,
    config: ConfigView,
)
    requires
        can_be_ordered(a),
        a.to_multiset() == b.to_multiset(),
    ensures
        parse_args(all_args(a), config) == parse_args(all_args(b), config),
{
    broadcast use vstd::seq_lib::group_to_multiset_ensures;

    lemma_reordered(a, b);
    assert(all_args(a).skip(0) =~= all_args(a));
    assert(all_args(b).skip(0) =~= all_args(b));
    lemma_take_groups(all_args(a), 0, a, config, None);
    lemma_take_groups(all_args(b), 0, b, config, None);
    lemma_all_applied(a, config, None);
    lemma_all_applied(b, config, None);
    let (ca, ia) = all_applied(a, config, None);
    let (cb, ib) = all_applied(b, config, None);
    assert forall|k: int| 0 <= k < a.len() implies is_set_by(#[trigger] a[k], cb, ib) by {
        assert(b.contains(a[k]));
        let l = b.index_of(a[k]);
        assert(is_set_by(b[l], cb, ib));
    }
    assert(ca.max_io_threads == cb.max_io_threads) by {
        if exists|k: int| 0 <= k < a.len() && (#[trigger] a[k]) is Threads {
            let k = choose|k: int| 0 <= k < a.len() && (#[trigger] a[k]) is Threads;
            assert(is_set_by(a[k], ca, ia) && is_set_by(a[k], cb, ib));
        } else {
            assert forall|l: int| 0 <= l < b.len() implies !((#[trigger] b[l]) is Threads) by {
                assert(a.contains(b[l]));
                assert(a[a.index_of(b[l])] == b[l]);
            }
        }
    }
    assert(ca.max_io_memory_usage == cb.max_io_memory_usage) by {
        if exists|k: int| 0 <= k < a.len() && (#[trigger] a[k]) is Memory {
            let k = choose|k: int| 0 <= k < a.len() && (#[trigger] a[k]) is Memory;
            assert(is_set_by(a[k], ca, ia) && is_set_by(a[k], cb, ib));
        } else {
            assert forall|l: int| 0 <= l < b.len() implies !((#[trigger] b[l]) is Memory) by {
                assert(a.contains(b[l]));
                assert(a[a.index_of(b[l])] == b[l]);
            }
        }
    }
    assert(ca.out == cb.out) by {
        if exists|k: int| 0 <= k < a.len() && (#[trigger] a[k]) is Out {
            let k = choose|k: int| 0 <= k < a.len() && (#[trigger] a[k]) is Out;
            assert(is_set_by(a[k], ca, ia) && is_set_by(a[k], cb, ib));
        } else {
            assert forall|l: int| 0 <= l < b.len() implies !((#[trigger] b[l]) is Out) by {
                assert(a.contains(b[l]));
                assert(a[a.index_of(b[l])] == b[l]);
            }
        }
    }
    assert(ia == ib) by {
        if exists|k: int| 0 <= k < a.len() && ((#[trigger] a[k]) is Stdin || a[k] is File) {
            let k = choose|k: int|
                0 <= k < a.len() && ((#[trigger] a[k]) is Stdin || a[k] is File);
            assert(is_set_by(a[k], ca, ia) && is_set_by(a[k], cb, ib));
        } else {
            assert forall|l: int| 0 <= l < b.len() implies !((#[trigger] b[l]) is Stdin) && !(b[l]
                is File) by {
                assert(a.contains(b[l]));
                assert(a[a.index_of(b[l])] == b[l]);
            }
        }
    }
}

/// Options that can be ordered can be in any order: no option comes twice, so no two of them clash
/// in another one either.
proof fn lemma_reordered(a: Seq<OptionGroup>, b: Seq<OptionGroup>)
    requires
        can_be_ordered(a),
        a.to_multiset() == b.to_multiset(),
    ensures
        can_be_ordered(b),
        forall|g: OptionGroup| a.contains(g) <==> b.contains(g),
{
    broadcast use vstd::seq_lib::group_to_multiset_ensures;

    assert forall|g: OptionGroup| a.contains(g) <==> b.contains(g) by {
        assert(a.contains(g) <==> a.to_multiset().count(g) > 0);
        assert(b.contains(g) <==> b.to_multiset().count(g) > 0);
    }
    assert forall|l: int| 0 <= l < b.len() implies (#[trigger] b[l]).valid() by {
        assert(b.contains(b[l]));
        assert(a[a.index_of(b[l])] == b[l]);
    }
    assert(a.no_duplicates()) by {
        assert forall|i: int, j: int| 0 <= i < j < a.len() implies a[i] != a[j] by {
            assert(!a[i].clashes(a[j]));
        }
    }
    a.lemma_multiset_has_no_duplicates();
    assert(b.no_duplicates()) by {
        b.lemma_multiset_has_no_duplicates_conv();
    }
    assert forall|k: int, l: int| 0 <= k < l < b.len() implies !(#[trigger] b[k]).clashes(
        #[trigger] b[l],
    ) by {
        assert(b.contains(b[k]) && b.contains(b[l]));
        let i = a.index_of(b[k]);
        let j = a.index_of(b[l]);
        assert(a[i] == b[k] && a[j] == b[l]);
        assert(b[k] != b[l]);
        if i < j {
            assert(!a[i].clashes(a[j]));
        } else {
            assert(!a[j].clashes(a[i]));
        }
    }
}

} // verus!
