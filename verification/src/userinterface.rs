//! Session state and the pure parts of the front ends.
//!
//! The interactive prompts, argument parsing and terminal styling live
//! outside the library; what stands here is the data they hand back and
//! forth and the computations behind it: the resource addresses derived
//! from a device link, the mode decision, and the machine-readable
//! catalog listing.
use vstd::prelude::*;

use crate::crossfeed::Crossfeed;
use crate::text::{last_segment, replace_bytes, replace_seq, seg_start, sub_vec};
use vstd::string::{StrSliceExecFns, StringSliceAdditionalSpecFns};

verus! {

/// Which devices block goes into the document.
#[derive(Debug, Clone, PartialEq, Eq)]
pub enum DevicesFile {
    /// The bundled default block.
    Bundled,
    /// The verbatim contents of a caller-supplied file at this path.
    Custom(Vec<u8>),
}

/// How the program was invoked.
#[derive(Debug, Clone, Copy, PartialEq, Eq, Structural)]
pub enum CliMode {
    Interactive,
    NonInteractive,
}

/// A subcommand on the command line selects the non-interactive mode.
pub fn cli_mode_check(has_subcommand: bool) -> (r: CliMode)
    ensures
        r == (if has_subcommand {
            CliMode::NonInteractive
        } else {
            CliMode::Interactive
        }),
{
    if has_subcommand {
        CliMode::NonInteractive
    } else {
        CliMode::Interactive
    }
}

/// The remote layout the resource addresses are built from.
#[derive(Debug, Clone, PartialEq, Eq)]
pub struct Config {
    pub github_url: Vec<u8>,
    pub github_raw: Vec<u8>,
    pub repo_url: Vec<u8>,
    pub parametric_eq: Vec<u8>,
}

/// The raw form of a repository path: the `/blob` segment removed.
pub open spec fn raw_path(p: Seq<u8>) -> Seq<u8> {
    replace_seq(p, "/blob".spec_bytes(), Seq::empty())
}

impl Config {
    /// Bundles the four address fragments.
    pub fn new(github_url: Vec<u8>, github_raw: Vec<u8>, repo_url: Vec<u8>, parametric_eq: Vec<u8>)
        -> (r: Config)
        ensures
            r.github_url == github_url,
            r.github_raw == github_raw,
            r.repo_url == repo_url,
            r.parametric_eq == parametric_eq,
    {
        Config { github_url, github_raw, repo_url, parametric_eq }
    }

    /// The address of the device index.
    pub fn repo_url(&self) -> (r: Vec<u8>)
        ensures
            r@ == self.github_url@ + self.repo_url@,
    {
        let mut out = sub_vec(self.github_url.as_slice(), 0, self.github_url.len());
        let mut tail = sub_vec(self.repo_url.as_slice(), 0, self.repo_url.len());
        out.append(&mut tail);
        out
    }

    /// The address listing one device's correction resources: the raw
    /// root, the device path without its `/blob` segment, and the
    /// device's own name with the parametric-EQ suffix.
    pub fn headphone_url(&self, headphone_result: &[u8]) -> (r: Vec<u8>)
        ensures
            r@ == self.github_raw@ + raw_path(headphone_result@) + "/".spec_bytes()
                + headphone_result@.skip(seg_start(headphone_result@)) + "%20".spec_bytes()
                + self.parametric_eq@,
    {
        let ghost parts = self.github_raw@ + raw_path(headphone_result@) + "/".spec_bytes()
            + headphone_result@.skip(seg_start(headphone_result@)) + "%20".spec_bytes()
            + self.parametric_eq@;
        let mut out = sub_vec(self.github_raw.as_slice(), 0, self.github_raw.len());
        let mut p1 = replace_bytes(headphone_result, "/blob".as_bytes(), "".as_bytes());
        proof {
            reveal_strlit("");
            assert("".spec_bytes().len() == 0);
            assert("".spec_bytes() =~= Seq::<u8>::empty());
        }
        out.append(&mut p1);
        let mut sep = "/".as_bytes_vec();
        out.append(&mut sep);
        let mut seg = last_segment(headphone_result);
        out.append(&mut seg);
        let mut pct = "%20".as_bytes_vec();
        out.append(&mut pct);
        let mut peq = sub_vec(self.parametric_eq.as_slice(), 0, self.parametric_eq.len());
        out.append(&mut peq);
        proof {
            assert(out@ =~= parts);
        }
        out
    }

    /// The raw address of one correction resource.
    pub fn raw_eq_url(&self, eq_url: &[u8]) -> (r: Vec<u8>)
        ensures
            r@ == self.github_raw@ + raw_path(eq_url@),
    {
        let mut out = sub_vec(self.github_raw.as_slice(), 0, self.github_raw.len());
        let mut p1 = replace_bytes(eq_url, "/blob".as_bytes(), "".as_bytes());
        proof {
            reveal_strlit("");
            assert("".spec_bytes().len() == 0);
            assert("".spec_bytes() =~= Seq::<u8>::empty());
        }
        out.append(&mut p1);
        out
    }
}

/// What one session selects: the device, its link, the devices block
/// and the crossfeed choice.
#[derive(Debug, Clone, PartialEq, Eq)]
pub struct Cli {
    pub headphone: Vec<u8>,
    pub headphone_url: Vec<u8>,
    pub devices: DevicesFile,
    pub crossfeed: Crossfeed,
}

impl Cli {
    /// A fresh session: nothing selected, defaults everywhere.
    pub fn initialize() -> (r: Cli)
        ensures
            r.headphone@ == Seq::<u8>::empty(),
            r.headphone_url@ == Seq::<u8>::empty(),
            r.devices == DevicesFile::Bundled,
            r.crossfeed == Crossfeed::Off,
    {
        Cli {
            headphone: Vec::new(),
            headphone_url: Vec::new(),
            devices: DevicesFile::Bundled,
            crossfeed: Crossfeed::Off,
        }
    }
}

/// The colour scheme hook the interactive front end fills in.
pub trait CliTheme: Sized {
    fn clitheme() -> Self;
}

/// One catalog row of the machine-readable listing.
#[derive(Debug, Clone, PartialEq, Eq)]
pub struct Headphone {
    pub name: Vec<u8>,
    pub link: Vec<u8>,
}

/// The machine-readable listing: every catalog entry plus the closed
/// set of preset labels.
#[derive(Debug, Clone, PartialEq, Eq)]
pub struct OutputJson {
    pub autoeq_list: Vec<Headphone>,
    pub crossfeed_presets: Vec<Vec<u8>>,
}

impl OutputJson {
    /// An empty listing that already names every preset choice.
    pub fn new() -> (r: OutputJson)
        ensures
            r.autoeq_list@ == Seq::<Headphone>::empty(),
            r.crossfeed_presets@.len() == 3,
            r.crossfeed_presets@[0]@ == crate::crossfeed::crossfeed_label(Crossfeed::Off),
            r.crossfeed_presets@[1]@ == crate::crossfeed::crossfeed_label(Crossfeed::PowChuMoy),
            r.crossfeed_presets@[2]@ == crate::crossfeed::crossfeed_label(Crossfeed::Mmp),
    {
        let off = Crossfeed::Off;
        let pcm = Crossfeed::PowChuMoy;
        let mmp = Crossfeed::Mmp;
        OutputJson {
            autoeq_list: Vec::new(),
            crossfeed_presets: vec![
                crate::crossfeed::crossfeed_label_vec(&off),
                crate::crossfeed::crossfeed_label_vec(&pcm),
                crate::crossfeed::crossfeed_label_vec(&mmp),
            ],
        }
    }

    /// Appends one catalog row; the stored link carries the plain-text
    /// resource extension.
    pub fn push_entry(&mut self, name: Vec<u8>, link: Vec<u8>)
        ensures
            final(self).crossfeed_presets@ == old(self).crossfeed_presets@,
            final(self).autoeq_list@.len() == old(self).autoeq_list@.len() + 1,
            forall|i: int|
                0 <= i < old(self).autoeq_list@.len() ==> final(self).autoeq_list@[i] == old(
                    self,
                ).autoeq_list@[i],
            final(self).autoeq_list@.last().name == name,
            final(self).autoeq_list@.last().link@ == link@ + ".txt".spec_bytes(),
    {
        let mut link = link;
        let mut ext = ".txt".as_bytes_vec();
        link.append(&mut ext);
        self.autoeq_list.push(Headphone { name, link });
    }
}

} // verus!
