//! The packages that Composer has installed for a project.
use crate::entries::{copy_of_texts, EntryMap};
use crate::json;
use crate::json::{Json, JsonView};
use crate::text;
use crate::text::{
    chars_of, lower_chars, same_text, starts_with, text_of, to_ascii_lowercase, trim_chars,
};
use vstd::prelude::*;

verus! {

/// The largest file of installed packages that is read.
pub const MAX_INSTALLED_METADATA_BYTES: u64 = 64 * 1024 * 1024;

/// The directory below which Composer installs packages, where the manifest names one.
pub open spec fn vendor_directory_of(manifest: JsonView) -> Option<Seq<char>> {
    match manifest.member("config"@) {
        Some(config) => match config.string_member("vendor-dir"@) {
            Some(directory) => if text::trimmed(directory).len() > 0 {
                Some(text::trimmed(directory))
            } else {
                None
            },
            None => None,
        },
        None => None,
    }
}

/// The list of installed packages: all of the metadata, or its property `packages`.
pub open spec fn installed_list(metadata: JsonView) -> Option<Seq<JsonView>> {
    match metadata {
        JsonView::Array(packages) => Some(packages),
        _ => match metadata.member("packages"@) {
            Some(packages) => packages.array(),
            None => None,
        },
    }
}

/// The lower-case name of an installed package and its version, where it has both. The version as
/// its authors spelled it goes before the other one.
pub open spec fn installed_package(package: JsonView) -> Option<(Seq<char>, Seq<char>)> {
    match package.string_member("name"@) {
        Some(name) => match (
            package.string_member("pretty_version"@),
            package.string_member("version"@),
        ) {
            (Some(version), _) => Some((text::lowered(name), version)),
            (None, Some(version)) => Some((text::lowered(name), version)),
            (None, None) => None,
        },
        None => None,
    }
}

/// The versions of the packages of a list by their names; the last one of a name counts.
pub open spec fn versions_among(packages: Seq<JsonView>) -> Map<Seq<char>, Seq<char>>
    decreases packages.len(),
{
    if packages.len() == 0 {
        Map::empty()
    } else {
        let before = versions_among(packages.drop_last());
        match installed_package(packages.last()) {
            Some((name, version)) => before.insert(name, version),
            None => before,
        }
    }
}

/// The versions that the metadata of installed packages states.
pub open spec fn versions_of(metadata: JsonView) -> Map<Seq<char>, Seq<char>> {
    match installed_list(metadata) {
        Some(packages) => versions_among(packages),
        None => Map::empty(),
    }
}

/// The directory below which Composer installs packages, where the manifest names one.
pub fn vendor_directory(manifest: &Json) -> (directory: Option<String>)
    ensures
        match directory {
            Some(directory) => vendor_directory_of(manifest@) == Some(directory@),
            None => vendor_directory_of(manifest@) is None,
        },
{
    match manifest.get("config") {
        Some(config) => match config.get_str("vendor-dir") {
            Some(directory) => {
                let chars = chars_of(directory);
                let inner = trim_chars(chars.as_slice());
                if inner.len() > 0 {
                    Some(text_of(inner))
                } else {
                    None
                }
            },
            None => None,
        },
        None => None,
    }
}

/// The directory below which Composer installs packages, where the text of the manifest names one;
/// `None` where the text is not JSON.
pub fn configured_vendor_directory(source: &str) -> (directory: Option<String>)
    ensures
        match directory {
            Some(directory) => configured_directory(source@) == Some(directory@),
            None => configured_directory(source@) is None,
        },
{
    match Json::parse(source) {
        Some(manifest) => vendor_directory(&manifest),
        None => None,
    }
}

/// The vendor directory that the text of a manifest names; `None` where it names none or is not JSON.
pub open spec fn configured_directory(source: Seq<char>) -> Option<Seq<char>> {
    match json::json_of_text(source) {
        Some(manifest) => vendor_directory_of(manifest),
        None => None,
    }
}

/// The components of the path of the file of installed packages, below the directory of the
/// manifest: the given vendor directory, or `vendor`, and two fixed ones.
pub open spec fn components_below(directory: Option<Seq<char>>) -> Seq<Seq<char>> {
    let vendor = match directory {
        Some(directory) => directory,
        None => "vendor"@,
    };
    seq![vendor, "composer"@, "installed.json"@]
}

/// The components of the path of the file of installed packages, below the directory of the
/// manifest.
pub fn components_for(directory: Option<String>) -> (components: Vec<String>)
    ensures
        text::text_views(components@) == components_below(
            match directory {
                Some(directory) => Some(directory@),
                None => None,
            },
        ),
{
    let mut components: Vec<String> = Vec::new();
    match directory {
        Some(directory) => {
            components.push(directory);
        },
        None => {
            components.push("vendor".to_owned());
        },
    }
    components.push("composer".to_owned());
    components.push("installed.json".to_owned());
    assert(text::text_views(components@) =~= components_below(
        match directory {
            Some(directory) => Some(directory@),
            None => None,
        },
    ));
    components
}

/// The components of the path of the file of installed packages, below the directory of the manifest
/// with the given text.
pub fn metadata_components(source: &str) -> (components: Vec<String>)
    ensures
        text::text_views(components@) == components_below(configured_directory(source@)),
{
    components_for(configured_vendor_directory(source))
}

/// The list of installed packages.
fn find_list(metadata: &Json) -> (packages: Option<&Vec<Json>>)
    ensures
        match packages {
            Some(packages) => installed_list(metadata@) == Some(json::item_models(packages@)),
            None => installed_list(metadata@) is None,
        },
{
    match metadata.as_array() {
        Some(packages) => Some(packages),
        None => match metadata.get("packages") {
            Some(packages) => packages.as_array(),
            None => None,
        },
    }
}

/// The lower-case name of an installed package and its version, where it has both.
fn read_package(package: &Json) -> (found: Option<(String, String)>)
    ensures
        match found {
            Some((name, version)) => installed_package(package@) == Some((name@, version@)),
            None => installed_package(package@) is None,
        },
{
    match package.get_str("name") {
        Some(name) => match package.get_str("pretty_version") {
            Some(version) => Some((to_ascii_lowercase(name), version.to_owned())),
            None => match package.get_str("version") {
                Some(version) => Some((to_ascii_lowercase(name), version.to_owned())),
                None => None,
            },
        },
        None => None,
    }
}

/// The versions that the metadata of installed packages states.
pub fn read_installed_versions(metadata: &Json) -> (versions: EntryMap<String>)
    ensures
        versions@ == versions_of(metadata@),
{
    let mut versions: EntryMap<String> = EntryMap::new();
    if let Some(packages) = find_list(metadata) {
        let ghost models = json::item_models(packages@);
        let mut i: usize = 0;
        while i < packages.len()
            invariant
                i <= packages@.len(),
                models == json::item_models(packages@),
                versions@ == versions_among(models.take(i as int)),
            decreases packages@.len() - i,
        {
            assert(models.take(i + 1).drop_last() =~= models.take(i as int));
            assert(models.take(i + 1).last() == packages@[i as int]@);
            if let Some((name, version)) = read_package(&packages[i]) {
                versions.insert(name, version);
            }
            i += 1;
        }
        assert(models.take(models.len() as int) =~= models);
    }
    versions
}

/// The versions that the text of the metadata of installed packages states; none where the text is
/// not JSON.
pub fn installed_versions_from_json(contents: &str) -> (versions: EntryMap<String>)
    ensures
        versions@ == (match json::json_of_text(contents@) {
            Some(metadata) => versions_of(metadata),
            None => Map::<Seq<char>, Seq<char>>::empty(),
        }),
{
    match Json::parse(contents) {
        Some(metadata) => read_installed_versions(&metadata),
        None => EntryMap::new(),
    }
}

/// What is found at a path: whether it is a regular file, its size and the moment of its last change.
/// By these an unchanged file is known.
#[derive(Clone, Copy, Debug, PartialEq, Eq, Structural)]
pub struct FileStamp {
    pub is_file: bool,
    pub bytes: u64,
    pub seconds: u64,
    pub nanoseconds: u32,
}

/// The versions that were read from a file.
#[derive(Debug)]
pub struct KnownVersions {
    pub stamp: FileStamp,
    pub versions: EntryMap<String>,
}

#[verifier::ext_equal]
pub struct KnownView {
    pub stamp: FileStamp,
    pub versions: Map<Seq<char>, Seq<char>>,
}

impl View for KnownVersions {
    type V = KnownView;

    open spec fn view(&self) -> KnownView {
        KnownView { stamp: self.stamp, versions: self.versions@ }
    }
}

/// What to do about a file of installed packages.
#[derive(Debug)]
pub enum Recall {
    /// The file cannot be used, so no versions are shown.
    Omit,
    /// The file is unchanged.
    Reuse(EntryMap<String>),
    /// The file has to be read.
    Read,
}

pub enum RecallView {
    Omit,
    Reuse(Map<Seq<char>, Seq<char>>),
    Read,
}

impl View for Recall {
    type V = RecallView;

    open spec fn view(&self) -> RecallView {
        match *self {
            Recall::Omit => RecallView::Omit,
            Recall::Reuse(versions) => RecallView::Reuse(versions@),
            Recall::Read => RecallView::Read,
        }
    }
}

/// What to do about a file, given what is known of it and what was found in its place.
pub open spec fn recall_of(
    known: Map<Seq<char>, KnownView>,
    path: Seq<char>,
    found: Option<FileStamp>,
) -> RecallView {
    match found {
        None => RecallView::Omit,
        Some(stamp) => if !stamp.is_file || stamp.bytes > MAX_INSTALLED_METADATA_BYTES {
            RecallView::Omit
        } else if known.contains_key(path) && known[path].stamp == stamp {
            RecallView::Reuse(known[path].versions)
        } else {
            RecallView::Read
        },
    }
}

/// The versions to show after a file was read. What is known of the file stands where it holds no
/// JSON, as it does while it is written.
pub open spec fn versions_read(
    known: Map<Seq<char>, KnownView>,
    path: Seq<char>,
    metadata: Option<JsonView>,
) -> Map<Seq<char>, Seq<char>> {
    match metadata {
        Some(metadata) => versions_of(metadata),
        None => if known.contains_key(path) {
            known[path].versions
        } else {
            Map::empty()
        },
    }
}

/// What is known after a file was read.
pub open spec fn known_after(
    known: Map<Seq<char>, KnownView>,
    path: Seq<char>,
    stamp: FileStamp,
    metadata: Option<JsonView>,
) -> Map<Seq<char>, KnownView> {
    match metadata {
        Some(metadata) => known.insert(path, KnownView { stamp, versions: versions_of(metadata) }),
        None => known,
    }
}

/// What the bytes of a file hold: JSON, unless they are no text or the text is not JSON.
pub open spec fn json_of_bytes(contents: Seq<u8>) -> Option<JsonView> {
    if vstd::utf8::valid_utf8(contents) {
        json::json_of_text(vstd::utf8::decode_utf8(contents))
    } else {
        None
    }
}

/// The versions to show after bytes were read from a file. There are none where they are more than
/// are read of a file.
pub open spec fn versions_in(
    known: Map<Seq<char>, KnownView>,
    path: Seq<char>,
    contents: Seq<u8>,
) -> Map<Seq<char>, Seq<char>> {
    if contents.len() > MAX_INSTALLED_METADATA_BYTES {
        Map::empty()
    } else {
        versions_read(known, path, json_of_bytes(contents))
    }
}

/// What is known after bytes were read from a file. Nothing is learnt from more than are read of
/// one.
pub open spec fn known_with(
    known: Map<Seq<char>, KnownView>,
    path: Seq<char>,
    stamp: FileStamp,
    contents: Seq<u8>,
) -> Map<Seq<char>, KnownView> {
    if contents.len() > MAX_INSTALLED_METADATA_BYTES {
        known
    } else {
        known_after(known, path, stamp, json_of_bytes(contents))
    }
}

/// `std::str::from_utf8` takes bytes for a text if they are valid UTF-8, and gives an error if they
/// are not.
#[verifier::external_body]
fn text_of_bytes(bytes: &[u8]) -> (source: Option<&str>)
    ensures
        match source {
            Some(source) => vstd::utf8::encode_utf8(source@) == bytes@,
            None => !vstd::utf8::valid_utf8(bytes@),
        },
{
    std::str::from_utf8(bytes).ok()
}

/// The versions that were read from the files of several projects.
#[derive(Debug)]
pub struct InstalledVersionCache {
    pub known: EntryMap<KnownVersions>,
}

impl Default for InstalledVersionCache {
    /// A cache that knows of no file.
    fn default() -> (cache: Self)
        ensures
            cache.known@ == Map::<Seq<char>, KnownView>::empty(),
    {
        InstalledVersionCache { known: EntryMap::new() }
    }
}

impl InstalledVersionCache {
    /// What to do about the file at a path, given what was found there.
    pub fn recall(&self, path: &str, found: Option<FileStamp>) -> (recall: Recall)
        ensures
            recall@ == recall_of(self.known@, path@, found),
    {
        match found {
            None => Recall::Omit,
            Some(stamp) => {
                if !stamp.is_file || stamp.bytes > MAX_INSTALLED_METADATA_BYTES {
                    return Recall::Omit;
                }
                match self.known.get(path) {
                    Some(known) => {
                        if known.stamp == stamp {
                            Recall::Reuse(copy_of_texts(&known.versions))
                        } else {
                            Recall::Read
                        }
                    },
                    None => Recall::Read,
                }
            },
        }
    }

    /// Learns what a file holds, and gives the versions to show.
    pub fn learn(&mut self, path: &str, stamp: FileStamp, metadata: Option<Json>) -> (versions:
        EntryMap<String>)
        ensures
            versions@ == versions_read(
                old(self).known@,
                path@,
                match metadata {
                    Some(metadata) => Some(metadata@),
                    None => None,
                },
            ),
            final(self).known@ == known_after(
                old(self).known@,
                path@,
                stamp,
                match metadata {
                    Some(metadata) => Some(metadata@),
                    None => None,
                },
            ),
    {
        match metadata {
            Some(metadata) => {
                let versions = read_installed_versions(&metadata);
                let copy = copy_of_texts(&versions);
                self.known.insert(path.to_owned(), KnownVersions { stamp, versions });
                copy
            },
            None => match self.known.get(path) {
                Some(known) => copy_of_texts(&known.versions),
                None => EntryMap::new(),
            },
        }
    }

    /// Learns what the bytes that were read from a file say, and gives the versions to show. More
    /// bytes than are read of a file are not looked at, whatever size it was found to have.
    pub fn learn_contents(&mut self, path: &str, stamp: FileStamp, contents: &[u8]) -> (versions:
        EntryMap<String>)
        ensures
            versions@ == versions_in(old(self).known@, path@, contents@),
            final(self).known@ == known_with(old(self).known@, path@, stamp, contents@),
    {
        let limit: u64 = MAX_INSTALLED_METADATA_BYTES;
        if contents.len() as u64 > limit {
            return EntryMap::new();
        }
        let metadata = match text_of_bytes(contents) {
            Some(source) => {
                proof {
                    vstd::utf8::encode_utf8_valid_utf8(source@);
                    vstd::utf8::encode_utf8_decode_utf8(source@);
                }
                Json::parse(source)
            },
            None => None,
        };
        self.learn(path, stamp, metadata)
    }
}

/// A file that was read and has not changed since is not read again, and it still gives the same
/// versions.
pub proof fn law_unchanged_metadata_is_reused(
    known: Map<Seq<char>, KnownView>,
    path: Seq<char>,
    stamp: FileStamp,
    metadata: JsonView,
)
    requires
        stamp.is_file,
        stamp.bytes <= MAX_INSTALLED_METADATA_BYTES,
    ensures
        recall_of(known_after(known, path, stamp, Some(metadata)), path, Some(stamp))
            == RecallView::Reuse(versions_read(known, path, Some(metadata))),
{
}

/// While a file is rewritten, and holds no JSON, the versions that were read from it before are
/// still shown, and they are not taken for what it holds once it is complete.
pub proof fn law_versions_stay_while_metadata_is_rewritten(
    known: Map<Seq<char>, KnownView>,
    path: Seq<char>,
    first: FileStamp,
    metadata: JsonView,
    second: FileStamp,
)
    requires
        first != second,
        second.is_file,
        second.bytes <= MAX_INSTALLED_METADATA_BYTES,
    ensures
        ({
            let read = known_after(known, path, first, Some(metadata));
            let rewritten = known_after(read, path, second, None);
            &&& versions_read(read, path, None) == versions_of(metadata)
            &&& recall_of(rewritten, path, Some(second)) == RecallView::Read
        }),
{
}

/// There are no versions where the metadata is missing, is not a regular file or is too large, and
/// none where more is read from it than may be, whatever size it was found to have. Nothing is
/// learnt from it either.
pub proof fn law_unfit_metadata_gives_no_versions(
    known: Map<Seq<char>, KnownView>,
    path: Seq<char>,
    found: Option<FileStamp>,
    stamp: FileStamp,
    contents: Seq<u8>,
)
    ensures
        (found matches Some(stamp) ==> !stamp.is_file || stamp.bytes
            > MAX_INSTALLED_METADATA_BYTES) ==> recall_of(known, path, found) == RecallView::Omit,
        contents.len() > MAX_INSTALLED_METADATA_BYTES ==> versions_in(known, path, contents)
            == Map::<Seq<char>, Seq<char>>::empty() && known_with(known, path, stamp, contents)
            == known,
{
}

/// A path of the file system.
#[verifier::external_type_specification]
#[verifier::external_body]
pub struct ExPathBuf(std::path::PathBuf);

/// A parsed URL.
#[verifier::external_type_specification]
#[verifier::external_body]
pub struct ExUrl(url::Url);

/// What a URL is: how it is written, and its scheme, its path and its host, if it has one.
pub struct UrlView {
    pub text: Seq<char>,
    pub scheme: Seq<char>,
    pub path: Seq<char>,
    pub host: Option<Seq<char>>,
}

/// What a value of `url::Url` holds, as `as_str`, `scheme`, `path` and `host_str` give it.
pub uninterp spec fn url_view(url: url::Url) -> UrlView;

/// The URL that `url::Url::parse` reads from a text; `None` where it gives an error.
pub uninterp spec fn parsed_url(source: Seq<char>) -> Option<UrlView>;

/// `url::Url::parse` reads a text as an absolute URL. What it gives depends on the text alone.
#[verifier::external_body]
fn parse_url(source: &str) -> (url: Option<url::Url>)
    ensures
        match url {
            Some(url) => parsed_url(source@) == Some(url_view(url)),
            None => parsed_url(source@) is None,
        },
{
    url::Url::parse(source).ok()
}

/// `url::Url::scheme` gives the scheme of a URL, in lower case.
#[verifier::external_body]
fn scheme_part(url: &url::Url) -> (scheme: &str)
    ensures
        scheme@ == url_view(*url).scheme,
{
    url.scheme()
}

/// `url::Url::path` gives the path of a URL, percent-encoded.
#[verifier::external_body]
fn path_part(url: &url::Url) -> (path: &str)
    ensures
        path@ == url_view(*url).path,
{
    url.path()
}

/// `url::Url::host_str` gives the host of a URL, if it has one.
#[verifier::external_body]
fn host_part(url: &url::Url) -> (host: Option<&str>)
    ensures
        match host {
            Some(host) => url_view(*url).host == Some(host@),
            None => url_view(*url).host is None,
        },
{
    url.host_str()
}

/// The path of a URL begins with a component that is not empty, also when its percent-encoding is
/// decoded.
pub open spec fn begins_with_component(path: Seq<char>) -> bool {
    &&& !text::begins_with(path, "//"@)
    &&& !text::begins_with(path, "/\\"@)
    &&& !text::begins_with(text::lowered(path), "/%2f"@)
    &&& !text::begins_with(text::lowered(path), "/%5c"@)
}

/// The path of a URL is long enough to end in the name of a manifest.
pub open spec fn is_long_enough(path: Seq<char>) -> bool {
    path.len() >= "/composer.json"@.len()
}

/// A file on another host, of which the first component is missing.
pub open spec fn is_bare_host(
    scheme: Seq<char>,
    path: Seq<char>,
    host: Option<Seq<char>>,
) -> bool {
    &&& scheme == "file"@
    &&& host matches Some(host) && host != "localhost"@
    &&& !begins_with_component(path)
}

impl UrlView {
    /// The URL names a file on another host, and the first component is missing.
    pub open spec fn names_bare_host(self) -> bool {
        is_bare_host(self.scheme, self.path, self.host)
    }
}

/// Tells whether the path of a URL is long enough to end in the name of a manifest.
pub fn can_name_manifest(path: &str) -> (yes: bool)
    ensures
        yes == is_long_enough(path@),
{
    chars_of(path).len() >= chars_of("/composer.json").len()
}

/// Tells whether a URL with these parts names a file on another host of which the first component is
/// missing.
pub fn lacks_component(scheme: &str, path: &str, host: Option<&str>) -> (yes: bool)
    ensures
        yes == is_bare_host(
            scheme@,
            path@,
            match host {
                Some(host) => Some(host@),
                None => None,
            },
        ),
{
    let host = match host {
        Some(host) => host,
        None => {
            return false;
        },
    };
    if !same_text(scheme, "file") || same_text(host, "localhost") {
        return false;
    }
    let chars = chars_of(path);
    let lower = lower_chars(chars.as_slice());
    starts_with(chars.as_slice(), chars_of("//").as_slice()) || starts_with(
        chars.as_slice(),
        chars_of("/\\").as_slice(),
    ) || starts_with(lower.as_slice(), chars_of("/%2f").as_slice()) || starts_with(
        lower.as_slice(),
        chars_of("/%5c").as_slice(),
    )
}

/// What a path is: all of its text, and its last component, if it has one.
pub struct PathText {
    pub whole: Seq<char>,
    pub last: Option<Seq<char>>,
}

/// The text of a path, as `std::path::Path::to_string_lossy` and `std::path::Path::file_name` give
/// it.
pub uninterp spec fn path_text(path: std::path::PathBuf) -> PathText;

/// There is a system on which `url::Url::to_file_path` gives a path with this text for the URL that
/// is written so, or on which it gives an error, where there is no path.
pub uninterp spec fn names_path(url: Seq<char>, path: Option<PathText>) -> bool;

/// The text of a path, if there is one.
pub open spec fn text_of_path(path: Option<std::path::PathBuf>) -> Option<PathText> {
    match path {
        Some(path) => Some(path_text(path)),
        None => None,
    }
}

/// `url::Url::to_file_path` gives the path that a URL names on this system, if it names one. Which
/// path that is, and for which URLs there is one, depends on the system, so it is stated only that
/// what it gives, be it a path or an error, is what some system gives for the URL. In a debug build for Windows it asserts that the path is absolute.
/// That fails for a bare drive, whose URL has a short path, and for a file on another host of which
/// the first component is missing.
#[verifier::external_body]
fn file_path_of(url: &url::Url) -> (path: Option<std::path::PathBuf>)
    requires
        is_long_enough(url_view(*url).path),
        !url_view(*url).names_bare_host(),
    ensures
        names_path(url_view(*url).text, text_of_path(path)),
{
    url.to_file_path().ok()
}

/// The characters that separate components on some system.
pub open spec fn is_separator(c: char) -> bool {
    c == '/' || c == '\\'
}

/// From the given place on the text of a path has only separators, and dots that stand alone between
/// separators or at the end.
pub open spec fn is_trailer(path: Seq<char>, from: int) -> bool {
    forall|i: int|
        from <= i < path.len() ==> is_separator(#[trigger] path[i]) || (path[i] == '.' && i > from
            && is_separator(path[i - 1]) && (i + 1 == path.len() || is_separator(path[i + 1])))
}

/// The name stands in the text of a path at its beginning or behind a separator or a drive, and
/// nothing but separators and single dots follows it.
pub open spec fn is_last_component(path: Seq<char>, name: Seq<char>) -> bool {
    exists|at: int| #[trigger]
        text::occurs_at(path, name, at) && (at == 0 || is_separator(path[at - 1]) || path[at - 1]
            == ':') && is_trailer(path, at + name.len())
}

/// `std::path::Path::file_name` gives the last component of a path, if it has one. On every system
/// that component stands at the beginning of the text of the path, or behind a separator or a drive,
/// with nothing but separators, and dots that stand for the directory itself, behind it. Which paths
/// have such a component, and which characters separate it, depends on the system, so nothing is
/// stated of that.
#[verifier::external_body]
fn file_name_of(path: &std::path::PathBuf) -> (name: Option<String>)
    ensures
        match name {
            Some(name) => path_text(*path).last == Some(name@) && is_last_component(
                path_text(*path).whole,
                name@,
            ),
            None => path_text(*path).last is None,
        },
{
    path.file_name().map(|name| name.to_string_lossy().into_owned())
}

/// The name of a manifest of Composer, however it is spelled in capitals.
pub open spec fn is_manifest_name(name: Seq<char>) -> bool {
    text::lowered(name) == "composer.json"@
}

/// The path, if its last component is the name of a manifest.
pub fn manifest_path(path: std::path::PathBuf, file_name: Option<String>) -> (manifest: Option<
    std::path::PathBuf,
>)
    ensures
        manifest == (if file_name matches Some(name) && is_manifest_name(name@) {
            Some(path)
        } else {
            None
        }),
{
    match file_name {
        Some(name) => {
            if same_text(to_ascii_lowercase(name.as_str()).as_str(), "composer.json") {
                Some(path)
            } else {
                None
            }
        },
        None => None,
    }
}

/// The last component of a path is the name of a manifest.
pub open spec fn leads_to_manifest(path: Seq<char>) -> bool {
    exists|name: Seq<char>| #[trigger] is_last_component(path, name) && is_manifest_name(name)
}

/// The path has a last component, and that is the name of a manifest.
pub open spec fn is_manifest(path: PathText) -> bool {
    path.last matches Some(name) && is_manifest_name(name)
}

/// What can be said on every system of the path of the manifest that a URI names. There is none where
/// the text is no URL or its path is too short. Each is one that the URL names on some system, and
/// leads to a manifest. Otherwise there is none only where the URL names no path, or one that is not
/// that of a manifest.
pub open spec fn is_path_for(uri: Seq<char>, path: Option<std::path::PathBuf>) -> bool {
    match (parsed_url(uri), path) {
        (None, Some(_)) => false,
        (None, None) => true,
        (Some(url), Some(path)) => {
            &&& is_long_enough(url.path)
            &&& names_path(url.text, Some(path_text(path)))
            &&& is_manifest(path_text(path))
            &&& leads_to_manifest(path_text(path).whole)
        },
        (Some(url), None) => {
            ||| !is_long_enough(url.path)
            ||| exists|found: Option<PathText>| #[trigger]
                names_path(url.text, found) && !(found matches Some(found) && is_manifest(found))
        },
    }
}

/// The path of the manifest that a URI names, if it names a manifest. Which path a URI names, if any,
/// depends on the system.
pub fn composer_path_from_uri(uri: &str) -> (path: Option<std::path::PathBuf>)
    requires
        parsed_url(uri@) matches Some(url) ==> !url.names_bare_host(),
    ensures
        is_path_for(uri@, path),
{
    match parse_url(uri) {
        Some(url) => manifest_of(&url),
        None => None,
    }
}

/// The path of the manifest that a URL names, if it names a manifest.
fn manifest_of(url: &url::Url) -> (path: Option<std::path::PathBuf>)
    requires
        !url_view(*url).names_bare_host(),
    ensures
        match path {
            Some(path) => {
                &&& is_long_enough(url_view(*url).path)
                &&& names_path(url_view(*url).text, Some(path_text(path)))
                &&& is_manifest(path_text(path))
                &&& leads_to_manifest(path_text(path).whole)
            },
            None => {
                ||| !is_long_enough(url_view(*url).path)
                ||| exists|found: Option<PathText>| #[trigger]
                    names_path(url_view(*url).text, found) && !(found matches Some(found)
                        && is_manifest(found))
            },
        },
{
    if !can_name_manifest(path_part(url)) {
        return None;
    }
    match file_path_of(url) {
        Some(path) => {
            let file_name = file_name_of(&path);
            manifest_path(path, file_name)
        },
        None => None,
    }
}

/// What came of the search for a manifest.
#[derive(Debug)]
pub enum ManifestSearch {
    /// The URI names the manifest at this path.
    Found(std::path::PathBuf),
    /// The URI names no manifest.
    Missing,
    /// The URI names a file on another host of which the first component is missing, and it was not
    /// looked at.
    BareHost,
}

/// Looks for the manifest that any URI names, and tells where the URI was not looked at.
pub fn find_manifest(uri: &str) -> (search: ManifestSearch)
    ensures
        search is BareHost <==> (parsed_url(uri@) matches Some(url) && url.names_bare_host()),
        search matches ManifestSearch::Found(path) ==> is_path_for(uri@, Some(path)),
        search is Missing ==> is_path_for(uri@, None),
{
    if let Some(url) = parse_url(uri) {
        if lacks_component(scheme_part(&url), path_part(&url), host_part(&url)) {
            return ManifestSearch::BareHost;
        }
    }
    match composer_path_from_uri(uri) {
        Some(path) => ManifestSearch::Found(path),
        None => ManifestSearch::Missing,
    }
}

/// On a system where the URL of a URI gives one and the same outcome, the path of the manifest is
/// that path exactly where its last component is `composer.json`, however it is spelled in capitals.
/// Otherwise there is none. It does not matter what else the path or the URL consists of.
pub proof fn law_manifests_are_recognised(
    uri: Seq<char>,
    url: UrlView,
    named: Option<PathText>,
    path: Option<std::path::PathBuf>,
)
    requires
        parsed_url(uri) == Some(url),
        url.path.len() >= 14,
        forall|outcome: Option<PathText>| #[trigger]
            names_path(url.text, outcome) ==> outcome == named,
        is_path_for(uri, path),
    ensures
        path is Some <==> (named matches Some(found) && found.last matches Some(name)
            && text::lowered(name) == "composer.json"@),
        path matches Some(path) ==> named == Some(path_text(path)),
{
    reveal_strlit("/composer.json");
}

/// What is no URL, and a URL whose path has less characters than a slash and the name of a manifest,
/// has no manifest, and no other URL is passed over for its length.
pub proof fn law_only_short_paths_are_passed_over(
    uri: Seq<char>,
    path: Option<std::path::PathBuf>,
    folder: Seq<char>,
    name: Seq<char>,
)
    requires
        is_path_for(uri, path),
    ensures
        parsed_url(uri) is None ==> path is None,
        parsed_url(uri) matches Some(url) ==> url.path.len() < 14 ==> path is None,
        text::lowered(name) == "composer.json"@ ==> is_long_enough(folder.push('/') + name),
{
    reveal_strlit("/composer.json");
    reveal_strlit("composer.json");
    assert(text::lowered(name).len() == name.len());
}

/// Only files on other hosts can lack a component: neither what is on this host nor what has another
/// scheme does, and nothing whose path begins with a component. A path that begins with two slashes
/// lacks one.
pub proof fn law_only_files_on_other_hosts_lack_a_component(
    scheme: Seq<char>,
    path: Seq<char>,
    host: Option<Seq<char>>,
)
    ensures
        host is None ==> !is_bare_host(scheme, path, host),
        host == Some("localhost"@) ==> !is_bare_host(scheme, path, host),
        scheme != "file"@ ==> !is_bare_host(scheme, path, host),
        path.len() > 1 && path[1] != '/' && path[1] != '\\' && path[1] != '%' ==> !is_bare_host(
            scheme,
            path,
            host,
        ),
        scheme == "file"@ && path.len() > 1 && path[0] == '/' && (path[1] == '/' || path[1] == '\\')
            && host is Some && host != Some("localhost"@) ==> is_bare_host(scheme, path, host),
{
    reveal_strlit("//");
    reveal_strlit("/\\");
    reveal_strlit("/%2f");
    reveal_strlit("/%5c");
    let lower = text::lowered(path);
    if path.len() > 1 {
        assert(lower[1] == text::lower_char(path[1]));
        assert forall|pattern: Seq<char>|
            pattern.len() > 1 && #[trigger] text::begins_with(path, pattern) implies path[1]
            == pattern[1] by {
            assert(path.subrange(0, pattern.len() as int)[1] == pattern[1]);
        }
        assert forall|pattern: Seq<char>|
            pattern.len() > 1 && #[trigger] text::begins_with(lower, pattern) implies lower[1]
            == pattern[1] by {
            assert(lower.subrange(0, pattern.len() as int)[1] == pattern[1]);
        }
        assert(path[0] == '/' && path[1] == '/' ==> path.subrange(0, 2) =~= "//"@);
        assert(path[0] == '/' && path[1] == '\\' ==> path.subrange(0, 2) =~= "/\\"@);
    }
}

/// The metadata holds this list of packages, as Composer 1 or Composer 2 writes it.
pub open spec fn holds_packages(metadata: JsonView, packages: Seq<JsonView>) -> bool {
    ||| metadata == JsonView::Array(packages)
    ||| metadata.member("packages"@) == Some(JsonView::Array(packages))
}

/// The package has this name and this version: `pretty_version` where that is a text, and else
/// `version`.
pub open spec fn states_version(
    package: JsonView,
    name: Seq<char>,
    version: Seq<char>,
) -> bool {
    &&& package.member("name"@) == Some(JsonView::String(name))
    &&& match package.member("pretty_version"@) {
        Some(JsonView::String(pretty)) => version == pretty,
        _ => package.member("version"@) == Some(JsonView::String(version)),
    }
}

/// The installed version of a package is the one that the last package of its name states, under its
/// lower-case name, whatever other members the package and the metadata have.
pub proof fn law_last_package_of_a_name_counts(
    metadata: JsonView,
    packages: Seq<JsonView>,
    at: int,
    name: Seq<char>,
    version: Seq<char>,
)
    requires
        holds_packages(metadata, packages),
        0 <= at < packages.len(),
        states_version(packages[at], name, version),
        forall|j: int, other: Seq<char>, theirs: Seq<char>|
            at < j < packages.len() && #[trigger] states_version(packages[j], other, theirs)
                ==> text::lowered(other) != text::lowered(name),
    ensures
        versions_of(metadata).contains_key(text::lowered(name)),
        versions_of(metadata)[text::lowered(name)] == version,
{
    lemma_last_package_counts(packages, at, name, version);
}

proof fn lemma_last_package_counts(
    packages: Seq<JsonView>,
    at: int,
    name: Seq<char>,
    version: Seq<char>,
)
    requires
        0 <= at < packages.len(),
        states_version(packages[at], name, version),
        forall|j: int, other: Seq<char>, theirs: Seq<char>|
            at < j < packages.len() && #[trigger] states_version(packages[j], other, theirs)
                ==> text::lowered(other) != text::lowered(name),
    ensures
        versions_among(packages).contains_key(text::lowered(name)),
        versions_among(packages)[text::lowered(name)] == version,
    decreases packages.len(),
{
    let front = packages.drop_last();
    let end = packages.len() - 1;
    if at < end {
        assert(front[at] == packages[at]);
        assert forall|j: int, other: Seq<char>, theirs: Seq<char>|
            at < j < front.len() && #[trigger] states_version(front[j], other, theirs) implies
            text::lowered(other) != text::lowered(name) by {
            assert(states_version(packages[j], other, theirs));
        }
        lemma_last_package_counts(front, at, name, version);
        let last = packages[end];
        if let Some((key, theirs)) = installed_package(last) {
            let other = last.string_member("name"@)->0;
            assert(states_version(last, other, theirs));
        }
    }
}

/// Every installed version is one that a package of the list states. Metadata without a list has
/// none.
pub proof fn law_only_listed_packages_are_installed(
    metadata: JsonView,
    packages: Seq<JsonView>,
    key: Seq<char>,
)
    ensures
        holds_packages(metadata, packages) && versions_of(metadata).contains_key(key) ==> exists|
            i: int,
            name: Seq<char>,
        |
            0 <= i < packages.len() && text::lowered(name) == key && #[trigger] states_version(
                packages[i],
                name,
                versions_of(metadata)[key],
            ),
        !(metadata is Array) && !(metadata.member("packages"@) matches Some(list) && list is Array)
            ==> !versions_of(metadata).contains_key(key),
{
    if holds_packages(metadata, packages) && versions_of(metadata).contains_key(key) {
        lemma_only_listed(packages, key);
    }
}

proof fn lemma_only_listed(packages: Seq<JsonView>, key: Seq<char>)
    requires
        versions_among(packages).contains_key(key),
    ensures
        exists|i: int, name: Seq<char>|
            0 <= i < packages.len() && text::lowered(name) == key && #[trigger] states_version(
                packages[i],
                name,
                versions_among(packages)[key],
            ),
    decreases packages.len(),
{
    let front = packages.drop_last();
    let last = packages.last();
    let own = installed_package(last) matches Some((name, _)) && name == key;
    if own {
        let name = last.string_member("name"@)->0;
        assert(states_version(packages[packages.len() - 1], name, versions_among(packages)[key]));
    } else {
        lemma_only_listed(front, key);
        let (i, name) = choose|i: int, name: Seq<char>|
            0 <= i < front.len() && text::lowered(name) == key && #[trigger] states_version(
                front[i],
                name,
                versions_among(front)[key],
            );
        assert(states_version(packages[i], name, versions_among(packages)[key]));
    }
}

/// The packages are looked for below the directory that `vendor-dir` of `config` names, without white
/// space around it, and below `vendor` where that is not a text or names nothing.
pub proof fn law_metadata_stands_below_vendor_directory(
    source: Seq<char>,
    manifest: JsonView,
    before: Seq<char>,
    directory: Seq<char>,
    after: Seq<char>,
)
    requires
        json::json_of_text(source) == Some(manifest),
        forall|i: int| 0 <= i < before.len() ==> text::is_space(#[trigger] before[i]),
        forall|i: int| 0 <= i < after.len() ==> text::is_space(#[trigger] after[i]),
        directory.len() > 0 ==> !text::is_space(directory[0]) && !text::is_space(directory.last()),
    ensures
        (manifest.member("config"@) matches Some(config) && config.member("vendor-dir"@) == Some(
            JsonView::String(before + directory + after),
        ) && directory.len() > 0) ==> components_below(configured_directory(source)) == seq![
            directory,
            "composer"@,
            "installed.json"@,
        ],
        (manifest.member("config"@) matches Some(config) && config.member("vendor-dir"@) == Some(
            JsonView::String(before + directory + after),
        ) && directory.len() == 0) ==> components_below(configured_directory(source)) == seq![
            "vendor"@,
            "composer"@,
            "installed.json"@,
        ],
        !(manifest.member("config"@) matches Some(config) && config.member(
            "vendor-dir"@,
        ) matches Some(value) && value is String) ==> components_below(configured_directory(source))
            == seq!["vendor"@, "composer"@, "installed.json"@],
{
    text::law_only_outer_white_space_is_left_out(before, directory, after);
}

/// A manifest that is not JSON has its packages below `vendor`.
pub proof fn law_unreadable_manifest_has_usual_directory(source: Seq<char>)
    requires
        json::json_of_text(source) is None,
    ensures
        components_below(configured_directory(source)) == seq![
            "vendor"@,
            "composer"@,
            "installed.json"@,
        ],
{
}

/// A regular file of up to 64 MiB is read unless it was read before and has not changed since, and
/// what was read from other files does not matter.
pub proof fn law_changed_metadata_is_read_again(
    known: Map<Seq<char>, KnownView>,
    path: Seq<char>,
    stamp: FileStamp,
)
    requires
        stamp.is_file,
        stamp.bytes <= 64 * 1024 * 1024,
        known.contains_key(path) ==> known[path].stamp.is_file != stamp.is_file
            || known[path].stamp.bytes != stamp.bytes || known[path].stamp.seconds != stamp.seconds
            || known[path].stamp.nanoseconds != stamp.nanoseconds,
    ensures
        recall_of(known, path, Some(stamp)) == RecallView::Read,
{
}

/// A file that is no regular one, or has more than 64 MiB, is not read.
pub proof fn law_large_metadata_is_omitted(
    known: Map<Seq<char>, KnownView>,
    path: Seq<char>,
    stamp: FileStamp,
)
    requires
        !stamp.is_file || stamp.bytes > 64 * 1024 * 1024,
    ensures
        recall_of(known, path, Some(stamp)) == RecallView::Omit,
{
}

/// What is read from up to 64 MiB of a file that hold JSON is shown and learnt, under the path of that
/// file alone. Bytes that hold none change nothing.
pub proof fn law_contents_are_learnt(
    known: Map<Seq<char>, KnownView>,
    path: Seq<char>,
    stamp: FileStamp,
    contents: Seq<u8>,
    other: Seq<char>,
)
    requires
        contents.len() <= 64 * 1024 * 1024,
    ensures
        ({
            let after = known_with(known, path, stamp, contents);
            &&& other != path ==> after.contains_key(other) == known.contains_key(other)
                && after[other] == known[other]
            &&& vstd::utf8::valid_utf8(contents) ==> (json::json_of_text(
                vstd::utf8::decode_utf8(contents),
            ) matches Some(metadata) ==> {
                &&& versions_in(known, path, contents) == versions_of(metadata)
                &&& after.contains_key(path)
                &&& after[path].stamp == stamp
                &&& after[path].versions == versions_of(metadata)
            })
            &&& !vstd::utf8::valid_utf8(contents) || json::json_of_text(
                vstd::utf8::decode_utf8(contents),
            ) is None ==> after == known && versions_in(known, path, contents) == (
            if known.contains_key(path) {
                known[path].versions
            } else {
                Map::empty()
            })
        }),
{
}

/// Where the path of a file on another host begins with a slash and something in percent-encoding, a
/// component is missing exactly where that stands for a slash or a backslash.
pub proof fn law_encoded_separators_leave_a_component_out(path: Seq<char>, host: Seq<char>)
    requires
        path.len() >= 4,
        path[0] == '/',
        path[1] == '%',
        host != "localhost"@,
    ensures
        is_bare_host("file"@, path, Some(host)) <==> (path[2] == '2' && (path[3] == 'f' || path[3]
            == 'F')) || (path[2] == '5' && (path[3] == 'c' || path[3] == 'C')),
{
    reveal_strlit("//");
    reveal_strlit("/\\");
    reveal_strlit("/%2f");
    reveal_strlit("/%5c");
    let lower = text::lowered(path);
    assert(path.subrange(0, 2)[1] == '%');
    assert(lower[0] == '/' && lower[1] == '%');
    assert(lower[2] == text::lower_char(path[2]) && lower[3] == text::lower_char(path[3]));
    let start = lower.subrange(0, 4);
    assert(start[0] == '/' && start[1] == '%' && start[2] == lower[2] && start[3] == lower[3]);
    assert(lower[2] == '2' && lower[3] == 'f' ==> start =~= "/%2f"@);
    assert(lower[2] == '5' && lower[3] == 'c' ==> start =~= "/%5c"@);
}

} // verus!
