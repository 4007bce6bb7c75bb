//! What the program is asked to do.

use vstd::prelude::*;
use vstd::string::*;

use crate::conf::{ConfigView, ExtractGmaConfig, ExtractGmadIn, ExtractJob, InView, JobView, PrintHelp};
use crate::path::OsPath;
use crate::text::same_bytes;

verus! {

/// Whether an extension is `gma`, in small letters or capitals.
pub open spec fn is_gma(extension: Option<Seq<u8>>) -> bool {
    extension matches Some(e) && e.map_values(|b: u8| crate::names::capital(b))
        == "GMA".spec_bytes()
}

/// What the arguments of the program ask for, where `config` holds unless they say otherwise; or
/// what is wrong with them, where it can be said. An archive by itself goes to a folder next to
/// it; `extract` takes arguments of its own.
pub open spec fn job(args: Seq<Seq<u8>>, config: ConfigView) -> Result<JobView, Option<Seq<char>>> {
    if args.len() == 0 {
        Err(None)
    } else {
        let path = crate::conf::arg_path(config.out.platform, args[0]);
        if is_gma(path.platform.extension(args[0])) {
            Ok(
                JobView {
                    config: ConfigView { out: path.without_extension(), ..config },
                    input: InView::File(path),
                    out_is_default: false,
                },
            )
        } else if args[0] == "extract".spec_bytes() {
            match crate::conf::parse_args(args.skip(1), config) {
                Ok(job) => Ok(job),
                Err(message) => Err(Some(message)),
            }
        } else {
            Err(Some("Unknown command"@))
        }
    }
}

/// Whether an extension is `gma`, in small letters or capitals.
fn has_gma_extension(extension: Option<Vec<u8>>) -> (yes: bool)
    ensures
        yes == is_gma(
            match extension {
                Some(e) => Some(e@),
                None => None,
            },
        ),
{
    let e = match extension {
        Some(e) => e,
        None => return false,
    };
    let mut capitals: Vec<u8> = Vec::new();
    let mut i: usize = 0;
    while i < e.len()
        invariant
            i <= e@.len(),
            capitals@.len() == i,
            forall|j: int| 0 <= j < i ==> capitals@[j] == crate::names::capital(e@[j]),
        decreases e@.len() - i,
    {
        let b = e[i];
        capitals.push(
            if 0x61 <= b && b <= 0x7a {
                b - 0x20
            } else {
                b
            },
        );
        i = i + 1;
    }
    assert(capitals@ =~= e@.map_values(|b: u8| crate::names::capital(b)));
    same_bytes(capitals.as_slice(), "GMA".as_bytes())
}

/// What the arguments of the program ask for, where `defaults` holds unless they say otherwise.
pub fn bin(defaults: ExtractGmaConfig, args: Vec<Vec<u8>>) -> (out: Result<ExtractJob, PrintHelp>)
    ensures
        match job(crate::path::views(args@), defaults@) {
            Ok(job) => out matches Ok(j) && j@ == job,
            Err(None) => out matches Err(help) && help.0 is None,
            Err(Some(message)) => out matches Err(help) && help.says(message),
        },
{
    let ghost all = crate::path::views(args@);
    let mut args = args;
    if args.len() == 0 {
        return Err(PrintHelp(None));
    }
    let cmd = args.remove(0);
    assert(all[0] == cmd@);
    assert(crate::path::views(args@) =~= all.skip(1));
    let platform = defaults.out.platform;
    if has_gma_extension(platform.extension_of(cmd.as_slice())) {
        let path = OsPath::new(platform, cmd);
        let mut config = defaults;
        config.out = path.strip_extension();
        Ok(ExtractJob { config, input: ExtractGmadIn::File(path), out_is_default: false })
    } else if same_bytes(cmd.as_slice(), "extract".as_bytes()) {
        ExtractGmaConfig::from_args(defaults, &args)
    } else {
        Err(PrintHelp(Some("Unknown command")))
    }
}

} // verus!
