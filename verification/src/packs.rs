//! Pack identifiers, the family table, and resolution of a downloadable pack
//! from the versions a catalog page offers.

use crate::text::{lex_le, lex_max, lemma_lex_max_greatest, lex_leq, str_eq, str_views};
use crate::versions::{parse_available_versions_from_html, versions_from};
use vstd::prelude::*;

verus! {

broadcast use vstd::string::group_string_axioms;

/// Everything that can go wrong while resolving or inspecting a pack.
#[derive(Debug)]
pub enum PackError {
    /// The requested family is not in the fixed family table.
    UnsupportedFamily { family: String },
    /// The explicitly requested version is not offered by the catalog page.
    VersionNotAvailable { requested: String, available: Vec<String> },
    /// The downloaded bytes are not a well-formed archive.
    MalformedArchive,
}

/// The fixed family table: the download name each supported family name
/// stands for.
pub open spec fn download_name_spec(name: Seq<char>) -> Option<Seq<char>> {
    if name == "atmega"@ {
        Some("Microchip.ATmega_DFP"@)
    } else {
        None
    }
}

/// The catalog and download site.
pub open spec fn packs_url_spec() -> Seq<char> {
    "https://packs.download.microchip.com/"@
}

/// The catalog and download site.
pub fn packs_url() -> (r: &'static str)
    ensures
        r@ == packs_url_spec(),
{
    "https://packs.download.microchip.com/"
}

/// Position of the first `==` separator at or after `i`, if any.
pub open spec fn first_sep(s: Seq<char>, i: int) -> Option<int>
    decreases s.len() - i,
{
    if i < 0 || i + 2 > s.len() {
        None
    } else if s[i] == '=' && s[i + 1] == '=' {
        Some(i)
    } else {
        first_sep(s, i + 1)
    }
}

/// The family part of a request token: everything before the first `==`
/// separator, or the whole token if there is none.
pub open spec fn family_part(s: Seq<char>) -> Seq<char> {
    match first_sep(s, 0) {
        Some(i) => s.subrange(0, i),
        None => s,
    }
}

/// The version part of a request token: everything after the first `==`
/// separator, if there is one.
pub open spec fn version_part(s: Seq<char>) -> Option<Seq<char>> {
    match first_sep(s, 0) {
        Some(i) => Some(s.subrange(i + 2, s.len() as int)),
        None => None,
    }
}

/// A parsed pack request: a family name and, optionally, an explicitly
/// selected version.
pub struct PackInfo {
    pub name: String,
    pub name_for_download: String,
    pub selected_version: Option<String>,
}

impl PackInfo {
    /// The download name this identifier resolved to.
    pub open spec fn spec_download_name(&self) -> Seq<char> {
        self.name_for_download@
    }

    /// The family name is in the table and resolved to its download name.
    pub open spec fn wf(&self) -> bool {
        download_name_spec(self.name@) == Some(self.spec_download_name())
    }

    /// What a successful parse of the token `arg` yields.
    pub open spec fn parsed_from(&self, arg: Seq<char>) -> bool {
        &&& self.wf()
        &&& self.name@ == family_part(arg)
        &&& match self.selected_version {
            Some(v) => version_part(arg) == Some(v@),
            None => version_part(arg) is None,
        }
    }

    /// Parses a request token, `<family>` or `<family>==<version>`; the
    /// family must be in the family table.
    pub fn from_str(arg: &str) -> (r: Result<PackInfo, PackError>)
        ensures
            match r {
                Ok(p) => download_name_spec(family_part(arg@)) is Some && p.parsed_from(arg@),
                Err(e) => download_name_spec(family_part(arg@)) is None && match e {
                    PackError::UnsupportedFamily { family } => family@ == family_part(arg@),
                    _ => false,
                },
            },
    {
        let chars = crate::versions::str_chars(arg);
        let n = chars.len();
        match find_sep(&chars) {
            Some(i) => {
                let name = arg.substring_char(0, i);
                let version = arg.substring_char(i + 2, n);
                assert(name@ == family_part(arg@));
                assert(version_part(arg@) == Some(version@));
                Self::from(name, version)
            },
            None => Self::from_name(arg),
        }
    }

    /// Builds the identifier for a family name with an explicitly selected
    /// version.
    pub fn from(name: &str, version: &str) -> (r: Result<PackInfo, PackError>)
        ensures
            match r {
                Ok(p) => {
                    &&& download_name_spec(name@) is Some
                    &&& p.wf()
                    &&& p.name@ == name@
                    &&& match p.selected_version {
                        Some(v) => v@ == version@,
                        None => false,
                    }
                },
                Err(e) => download_name_spec(name@) is None && match e {
                    PackError::UnsupportedFamily { family } => family@ == name@,
                    _ => false,
                },
            },
    {
        match Self::name_for_download(name) {
            Some(d) => Ok(
                PackInfo {
                    name: name.to_owned(),
                    name_for_download: d.to_owned(),
                    selected_version: Some(version.to_owned()),
                },
            ),
            None => Err(PackError::UnsupportedFamily { family: name.to_owned() }),
        }
    }

    /// Builds the identifier for a family name with no selected version.
    pub fn from_name(name: &str) -> (r: Result<PackInfo, PackError>)
        ensures
            match r {
                Ok(p) => {
                    &&& download_name_spec(name@) is Some
                    &&& p.wf()
                    &&& p.name@ == name@
                    &&& p.selected_version is None
                },
                Err(e) => download_name_spec(name@) is None && match e {
                    PackError::UnsupportedFamily { family } => family@ == name@,
                    _ => false,
                },
            },
    {
        match Self::name_for_download(name) {
            Some(d) => Ok(
                PackInfo {
                    name: name.to_owned(),
                    name_for_download: d.to_owned(),
                    selected_version: None,
                },
            ),
            None => Err(PackError::UnsupportedFamily { family: name.to_owned() }),
        }
    }

    /// Looks a family name up in the family table.
    pub fn name_for_download(name: &str) -> (r: Option<&'static str>)
        ensures
            match r {
                Some(d) => download_name_spec(name@) == Some(d@),
                None => download_name_spec(name@) is None,
            },
    {
        if str_eq(name, "atmega") {
            Some("Microchip.ATmega_DFP")
        } else {
            None
        }
    }
}

fn find_sep(chars: &Vec<char>) -> (r: Option<usize>)
    ensures
        match r {
            Some(i) => first_sep(chars@, 0) == Some(i as int) && i + 2 <= chars@.len(),
            None => first_sep(chars@, 0) is None,
        },
{
    let n = chars.len();
    if n < 2 {
        return None;
    }
    let mut i: usize = 0;
    while i <= n - 2
        invariant
            2 <= n == chars@.len(),
            0 <= i <= n,
            first_sep(chars@, 0) == first_sep(chars@, i as int),
        decreases n - i,
    {
        if chars[i] == '=' && chars[i + 1] == '=' {
            return Some(i);
        }
        i = i + 1;
    }
    None
}

/// The versions a catalog page offers for a pack, in page order.
pub struct DownloadablePacks {
    html_page: String,
}

impl DownloadablePacks {
    /// The text of the catalog page this value was built from.
    pub closed spec fn spec_html(&self) -> Seq<char> {
        self.html_page@
    }

    /// Wraps already-fetched catalog page text.
    pub fn from_html(html_page: String) -> (r: DownloadablePacks)
        ensures
            r.spec_html() == html_page@,
    {
        DownloadablePacks { html_page }
    }

    /// Resolves a pack identifier against this catalog page: extracts the
    /// versions advertised for the pack's download name and checks an
    /// explicitly selected version against them.
    pub fn for_pack(&self, pack: PackInfo) -> (r: Result<DownloadablePack, PackError>)
        requires
            pack.wf(),
        ensures
            resolution_spec(
                r,
                pack,
                versions_from(self.spec_html(), pack.spec_download_name(), 0),
            ),
    {
        let available_versions = parse_available_versions_from_html(
            self.html_page.as_str(),
            pack.name_for_download.as_str(),
        );
        DownloadablePack::new(pack, available_versions)
    }
}

/// What resolving `pack` against the catalog's versions `avail` returns:
/// the resolved pack when no version was selected or the selected version is
/// available, and the version-not-available error otherwise.
pub open spec fn resolution_spec(
    r: Result<DownloadablePack, PackError>,
    pack: PackInfo,
    avail: Seq<Seq<char>>,
) -> bool {
    match r {
        Ok(dp) => {
            &&& dp.wf()
            &&& dp.spec_pack_info() == pack
            &&& str_views(dp.spec_available_versions()) == avail
            &&& match pack.selected_version {
                Some(v) => avail.contains(v@),
                None => true,
            }
        },
        Err(e) => {
            &&& match pack.selected_version {
                Some(v) => !avail.contains(v@),
                None => false,
            }
            &&& match e {
                PackError::VersionNotAvailable { requested, available } => {
                    &&& match pack.selected_version {
                        Some(v) => requested@ == v@,
                        None => false,
                    }
                    &&& str_views(available@) == avail
                },
                _ => false,
            }
        },
    }
}

/// A pack identifier together with the versions the catalog offers for it;
/// an explicitly selected version is known to be among them.
pub struct DownloadablePack {
    pack_info: PackInfo,
    available_versions: Vec<String>,
}

impl DownloadablePack {
    pub closed spec fn spec_pack_info(&self) -> PackInfo {
        self.pack_info
    }

    pub closed spec fn spec_available_versions(&self) -> Seq<String> {
        self.available_versions@
    }

    /// The identifier resolved, and a selected version is available.
    pub open spec fn wf(&self) -> bool {
        &&& self.spec_pack_info().wf()
        &&& match self.spec_pack_info().selected_version {
            Some(v) => str_views(self.spec_available_versions()).contains(v@),
            None => true,
        }
    }

    /// A concrete version can be picked: one was selected, or at least one is
    /// available.
    pub open spec fn has_version(&self) -> bool {
        self.spec_pack_info().selected_version is Some || self.spec_available_versions().len() > 0
    }

    /// The version the pack resolves to: the selected one if present, else
    /// the lexicographically greatest available one.
    pub open spec fn spec_version(&self) -> Seq<char> {
        match self.spec_pack_info().selected_version {
            Some(v) => v@,
            None => lex_max(str_views(self.spec_available_versions())),
        }
    }

    /// The download URL the pack resolves to.
    pub open spec fn spec_url(&self) -> Seq<char> {
        packs_url_spec() + self.spec_pack_info().spec_download_name() + "."@ + self.spec_version()
            + "."@ + "atpack"@
    }

    /// Pairs an identifier with the catalog's versions; an explicitly
    /// selected version must be among them.
    pub fn new(pack_info: PackInfo, available_versions: Vec<String>) -> (r: Result<
        DownloadablePack,
        PackError,
    >)
        requires
            pack_info.wf(),
        ensures
            resolution_spec(r, pack_info, str_views(available_versions@)),
            match r {
                Ok(dp) => dp.spec_available_versions() == available_versions@,
                Err(_) => true,
            },
    {
        match &pack_info.selected_version {
            None => Ok(DownloadablePack { pack_info, available_versions }),
            Some(v) => {
                if contains_str(&available_versions, v.as_str()) {
                    Ok(DownloadablePack { pack_info, available_versions })
                } else {
                    let requested = v.clone();
                    Err(
                        PackError::VersionNotAvailable {
                            requested,
                            available: available_versions,
                        },
                    )
                }
            },
        }
    }

    /// The selected version if one was given, else the lexicographically
    /// greatest available version. Versions are compared character by
    /// character, not by numeric component: `"1.10.0"` orders below
    /// `"1.9.0"`.
    pub fn version(&self) -> (r: String)
        requires
            self.has_version(),
        ensures
            r@ == self.spec_version(),
            match self.spec_pack_info().selected_version {
                Some(v) => r@ == v@,
                None => str_views(self.spec_available_versions()).contains(r@) && forall|j: int|
                    0 <= j < self.spec_available_versions().len() ==> lex_leq(
                        #[trigger] str_views(self.spec_available_versions())[j],
                        r@,
                    ),
            },
    {
        match &self.pack_info.selected_version {
            Some(v) => v.clone(),
            None => {
                let n = self.available_versions.len();
                let mut best = self.available_versions[0].clone();
                let mut i: usize = 1;
                while i < n
                    invariant
                        1 <= i <= n,
                        n == self.spec_available_versions().len(),
                        best@ == lex_max(
                            str_views(self.spec_available_versions()).subrange(0, i as int),
                        ),
                    decreases n - i,
                {
                    let ghost vs = str_views(self.spec_available_versions());
                    if lex_le(best.as_str(), self.available_versions[i].as_str()) {
                        best = self.available_versions[i].clone();
                    }
                    proof {
                        assert(vs.subrange(0, i + 1).drop_last() =~= vs.subrange(0, i as int));
                        assert(vs.subrange(0, i + 1).last() == vs[i as int]);
                    }
                    i = i + 1;
                }
                proof {
                    let vs = str_views(self.spec_available_versions());
                    assert(vs.subrange(0, n as int) =~= vs);
                    lemma_lex_max_greatest(vs);
                }
                best
            },
        }
    }

    /// The download URL: the site, the download name, the resolved version
    /// and the archive suffix.
    pub fn url(&self) -> (r: String)
        requires
            self.has_version(),
        ensures
            r@ == self.spec_url(),
    {
        let mut out = String::from_str(packs_url());
        out.append(self.pack_info.name_for_download.as_str());
        out.append(".");
        let version = self.version();
        out.append(version.as_str());
        out.append(".");
        out.append("atpack");
        proof {
            assert(out@ =~= self.spec_url());
        }
        out
    }

    /// The catalog versions this pack was resolved against.
    pub fn available_versions(&self) -> (r: &Vec<String>)
        ensures
            r@ == self.spec_available_versions(),
    {
        &self.available_versions
    }
}

fn contains_str(v: &Vec<String>, s: &str) -> (r: bool)
    ensures
        r == str_views(v@).contains(s@),
{
    let n = v.len();
    let mut i: usize = 0;
    while i < n
        invariant
            0 <= i <= n,
            n == v@.len(),
            forall|j: int| 0 <= j < i ==> str_views(v@)[j] != s@,
        decreases n - i,
    {
        if str_eq(v[i].as_str(), s) {
            assert(str_views(v@)[i as int] == s@);
            return true;
        }
        i = i + 1;
    }
    assert(!str_views(v@).contains(s@));
    false
}

} // verus!

