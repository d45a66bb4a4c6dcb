//! The platforms for which there are servers, and how their files are named and recognised.
use crate::settings::SERVER_NAME;
use crate::SERVER_VERSION;
use vstd::prelude::*;

verus! {

/// The smallest file that can be a server.
pub const MIN_SERVER_BYTES: u64 = 64 * 1024;

#[derive(Clone, Copy, Debug, PartialEq, Eq, Structural)]
pub enum Os {
    Mac,
    Linux,
    Windows,
}

#[derive(Clone, Copy, Debug, PartialEq, Eq, Structural)]
pub enum Architecture {
    Aarch64,
    X86,
    X8664,
}

/// A format of executable files.
#[derive(Clone, Copy, Debug, PartialEq, Eq, Structural)]
pub enum ExecutableFormat {
    Elf,
    MachO,
    Windows,
}

/// What the server is for a platform: the target it is built for, the targets of older servers that
/// run there too, the end of its file name, and its format.
#[derive(Clone, Debug)]
pub struct ServerPlatform {
    pub target: &'static str,
    pub fallback_targets: Vec<&'static str>,
    pub executable_suffix: &'static str,
    pub format: ExecutableFormat,
}

#[verifier::ext_equal]
pub struct PlatformView {
    pub target: Seq<char>,
    pub fallback_targets: Seq<Seq<char>>,
    pub executable_suffix: Seq<char>,
    pub format: ExecutableFormat,
}

impl View for ServerPlatform {
    type V = PlatformView;

    open spec fn view(&self) -> PlatformView {
        PlatformView {
            target: self.target@,
            fallback_targets: self.fallback_targets@.map_values(|target: &'static str| target@),
            executable_suffix: self.executable_suffix@,
            format: self.format,
        }
    }
}

/// The server for a system and a processor. There is none for 32-bit processors.
pub open spec fn platform_of(os: Os, architecture: Architecture) -> Option<PlatformView> {
    match (os, architecture) {
        (_, Architecture::X86) => None,
        (Os::Mac, Architecture::Aarch64) => Some(
            PlatformView {
                target: "aarch64-apple-darwin"@,
                fallback_targets: seq!["aarch64-apple-darwin"@],
                executable_suffix: ""@,
                format: ExecutableFormat::MachO,
            },
        ),
        (Os::Mac, Architecture::X8664) => Some(
            PlatformView {
                target: "x86_64-apple-darwin"@,
                fallback_targets: seq!["x86_64-apple-darwin"@],
                executable_suffix: ""@,
                format: ExecutableFormat::MachO,
            },
        ),
        (Os::Linux, Architecture::Aarch64) => Some(
            PlatformView {
                target: "aarch64-unknown-linux-musl"@,
                fallback_targets: seq![
                    "aarch64-unknown-linux-musl"@,
                    "aarch64-unknown-linux-gnu"@,
                ],
                executable_suffix: ""@,
                format: ExecutableFormat::Elf,
            },
        ),
        (Os::Linux, Architecture::X8664) => Some(
            PlatformView {
                target: "x86_64-unknown-linux-musl"@,
                fallback_targets: seq!["x86_64-unknown-linux-musl"@, "x86_64-unknown-linux-gnu"@],
                executable_suffix: ""@,
                format: ExecutableFormat::Elf,
            },
        ),
        (Os::Windows, Architecture::Aarch64) => Some(
            PlatformView {
                target: "aarch64-pc-windows-msvc"@,
                fallback_targets: seq!["aarch64-pc-windows-msvc"@],
                executable_suffix: ".exe"@,
                format: ExecutableFormat::Windows,
            },
        ),
        (Os::Windows, Architecture::X8664) => Some(
            PlatformView {
                target: "x86_64-pc-windows-msvc"@,
                fallback_targets: seq!["x86_64-pc-windows-msvc"@],
                executable_suffix: ".exe"@,
                format: ExecutableFormat::Windows,
            },
        ),
    }
}

/// The server for a platform with the given parts.
fn make_platform(
    target: &'static str,
    older_target: Option<&'static str>,
    executable_suffix: &'static str,
    format: ExecutableFormat,
) -> (platform: ServerPlatform)
    ensures
        platform@ == (PlatformView {
            target: target@,
            fallback_targets: match older_target {
                Some(older) => seq![target@, older@],
                None => seq![target@],
            },
            executable_suffix: executable_suffix@,
            format,
        }),
{
    let mut fallback_targets: Vec<&'static str> = Vec::new();
    fallback_targets.push(target);
    if let Some(older) = older_target {
        fallback_targets.push(older);
    }
    let platform = ServerPlatform { target, fallback_targets, executable_suffix, format };
    assert(platform@.fallback_targets =~= (match older_target {
        Some(older) => seq![target@, older@],
        None => seq![target@],
    }));
    platform
}

/// The server for a system and a processor, or why there is none.
pub fn platform(os: Os, architecture: Architecture) -> (platform: Result<ServerPlatform, String>)
    ensures
        match platform {
            Ok(platform) => platform_of(os, architecture) == Some(platform@),
            Err(message) => platform_of(os, architecture) is None && message@
                == "Composer LSP does not provide a language server for 32-bit systems"@,
        },
{
    match (os, architecture) {
        (_, Architecture::X86) => Err(
            "Composer LSP does not provide a language server for 32-bit systems".to_owned(),
        ),
        (Os::Mac, Architecture::Aarch64) => Ok(
            make_platform("aarch64-apple-darwin", None, "", ExecutableFormat::MachO),
        ),
        (Os::Mac, Architecture::X8664) => Ok(
            make_platform("x86_64-apple-darwin", None, "", ExecutableFormat::MachO),
        ),
        (Os::Linux, Architecture::Aarch64) => Ok(
            make_platform(
                "aarch64-unknown-linux-musl",
                Some("aarch64-unknown-linux-gnu"),
                "",
                ExecutableFormat::Elf,
            ),
        ),
        (Os::Linux, Architecture::X8664) => Ok(
            make_platform(
                "x86_64-unknown-linux-musl",
                Some("x86_64-unknown-linux-gnu"),
                "",
                ExecutableFormat::Elf,
            ),
        ),
        (Os::Windows, Architecture::Aarch64) => Ok(
            make_platform("aarch64-pc-windows-msvc", None, ".exe", ExecutableFormat::Windows),
        ),
        (Os::Windows, Architecture::X8664) => Ok(
            make_platform("x86_64-pc-windows-msvc", None, ".exe", ExecutableFormat::Windows),
        ),
    }
}

/// What was found at the path of a server: whether it is a file, how long it is, and the bytes that
/// could be read from its beginning, up to four.
#[derive(Clone, Copy, Debug)]
pub struct FileProbe {
    pub is_file: bool,
    pub bytes: u64,
    pub signature: [u8; 4],
    pub read: usize,
}

/// The file begins as files of the format do.
pub open spec fn has_signature(signature: Seq<u8>, read: nat, format: ExecutableFormat) -> bool {
    match format {
        ExecutableFormat::Elf => read == 4 && signature == seq![0x7fu8, 0x45u8, 0x4cu8, 0x46u8],
        ExecutableFormat::Windows => read >= 2 && signature.take(2) == seq![0x4du8, 0x5au8],
        ExecutableFormat::MachO => read == 4 && (signature == seq![0xfeu8, 0xedu8, 0xfau8, 0xceu8]
            || signature == seq![0xceu8, 0xfau8, 0xedu8, 0xfeu8] || signature == seq![
            0xfeu8,
            0xedu8,
            0xfau8,
            0xcfu8,
        ] || signature == seq![0xcfu8, 0xfau8, 0xedu8, 0xfeu8] || signature == seq![
            0xcau8,
            0xfeu8,
            0xbau8,
            0xbeu8,
        ]),
    }
}

/// What was found can be a server: a file that is not too short and begins as it has to.
pub open spec fn is_server(probe: FileProbe, format: ExecutableFormat) -> bool {
    &&& probe.is_file
    &&& probe.bytes >= MIN_SERVER_BYTES
    &&& has_signature(probe.signature@, probe.read as nat, format)
}

/// Tells whether the first four bytes are the given ones.
fn starts_as(signature: &[u8; 4], a: u8, b: u8, c: u8, d: u8) -> (yes: bool)
    ensures
        yes == (signature@ == seq![a, b, c, d]),
{
    let yes = signature[0] == a && signature[1] == b && signature[2] == c && signature[3] == d;
    proof {
        let wanted = seq![a, b, c, d];
        assert(wanted.len() == 4 && wanted[0] == a && wanted[1] == b && wanted[2] == c && wanted[3]
            == d);
        if yes {
            assert(signature@ =~= wanted);
        }
    }
    yes
}

/// Tells whether what was found can be a server.
pub fn is_valid_server(probe: &FileProbe, format: ExecutableFormat) -> (valid: bool)
    ensures
        valid == is_server(*probe, format),
{
    if !probe.is_file || probe.bytes < MIN_SERVER_BYTES {
        return false;
    }
    let signature = &probe.signature;
    match format {
        ExecutableFormat::Elf => probe.read == 4 && starts_as(signature, 0x7f, 0x45, 0x4c, 0x46),
        ExecutableFormat::Windows => {
            let yes = probe.read >= 2 && signature[0] == 0x4d && signature[1] == 0x5a;
            proof {
                let wanted = seq![0x4du8, 0x5au8];
                let found = signature@.take(2);
                assert(wanted[0] == 0x4d && wanted[1] == 0x5a);
                assert(found[0] == signature@[0] && found[1] == signature@[1]);
                if found[0] == 0x4d && found[1] == 0x5a {
                    assert(found =~= wanted);
                }
            }
            yes
        },
        ExecutableFormat::MachO => probe.read == 4 && (starts_as(
            signature,
            0xfe,
            0xed,
            0xfa,
            0xce,
        ) || starts_as(signature, 0xce, 0xfa, 0xed, 0xfe) || starts_as(
            signature,
            0xfe,
            0xed,
            0xfa,
            0xcf,
        ) || starts_as(signature, 0xcf, 0xfa, 0xed, 0xfe) || starts_as(
            signature,
            0xca,
            0xfe,
            0xba,
            0xbe,
        )),
    }
}

/// The name under which the server is published.
pub open spec fn asset_of(platform: PlatformView) -> Seq<char> {
    SERVER_NAME@ + "-"@ + platform.target + platform.executable_suffix
}

/// The name of the file in which the server of this release is kept.
pub open spec fn file_of(platform: PlatformView) -> Seq<char> {
    SERVER_NAME@ + "-"@ + SERVER_VERSION@ + "-"@ + platform.target + platform.executable_suffix
}

/// The address from which the server of this release is downloaded.
pub open spec fn download_address(platform: PlatformView) -> Seq<char> {
    "https://github.com/BastenIT/zed-composer-support/releases/download/v"@ + SERVER_VERSION@
        + "/"@ + asset_of(platform)
}

impl ServerPlatform {
    /// The name under which the server is published.
    pub fn asset_name(&self) -> (name: String)
        ensures
            name@ == asset_of(self@),
    {
        let mut name = SERVER_NAME.to_owned();
        name.append("-");
        name.append(self.target);
        name.append(self.executable_suffix);
        name
    }

    /// The name of the file in which the server of this release is kept.
    pub fn file_name(&self) -> (name: String)
        ensures
            name@ == file_of(self@),
    {
        let mut name = SERVER_NAME.to_owned();
        name.append("-");
        name.append(SERVER_VERSION);
        name.append("-");
        name.append(self.target);
        name.append(self.executable_suffix);
        name
    }

    /// The address from which the server of this release is downloaded.
    pub fn download_url(&self) -> (address: String)
        ensures
            address@ == download_address(self@),
    {
        let mut address =
            "https://github.com/BastenIT/zed-composer-support/releases/download/v".to_owned();
        address.append(SERVER_VERSION);
        address.append("/");
        address.append(self.asset_name().as_str());
        address
    }
}

/// A server runs on every system with a 64-bit processor, and an older one for the same target is
/// looked for first among those that run there too.
pub proof fn law_every_64_bit_platform_has_a_server(os: Os, architecture: Architecture)
    ensures
        platform_of(os, architecture) is Some <==> architecture != Architecture::X86,
        platform_of(os, architecture) matches Some(platform) ==> platform.fallback_targets.len() > 0
            && platform.fallback_targets[0] == platform.target,
{
}

/// How targets name a processor.
pub open spec fn processor_name(architecture: Architecture) -> Seq<char> {
    match architecture {
        Architecture::Aarch64 => "aarch64"@,
        _ => "x86_64"@,
    }
}

/// A server is built for its processor and its system, in the format of that system. On Linux it needs
/// no library of the system, and an older one that does can stand in. Executable files have an ending
/// on Windows only.
pub proof fn law_server_fits_its_platform(os: Os, architecture: Architecture)
    requires
        architecture != Architecture::X86,
    ensures
        ({
            let platform = platform_of(os, architecture)->0;
            let processor = processor_name(architecture);
            &&& os == Os::Mac ==> platform.target == processor + "-apple-darwin"@
                && platform.fallback_targets == seq![platform.target] && platform.executable_suffix
                == ""@ && platform.format == ExecutableFormat::MachO
            &&& os == Os::Linux ==> platform.target == processor + "-unknown-linux-musl"@
                && platform.fallback_targets == seq![
                platform.target,
                processor + "-unknown-linux-gnu"@,
            ] && platform.executable_suffix == ""@ && platform.format == ExecutableFormat::Elf
            &&& os == Os::Windows ==> platform.target == processor + "-pc-windows-msvc"@
                && platform.fallback_targets == seq![platform.target] && platform.executable_suffix
                == ".exe"@ && platform.format == ExecutableFormat::Windows
        }),
{
    reveal_strlit("aarch64");
    reveal_strlit("x86_64");
    reveal_strlit("-apple-darwin");
    reveal_strlit("-unknown-linux-musl");
    reveal_strlit("-unknown-linux-gnu");
    reveal_strlit("-pc-windows-msvc");
    reveal_strlit("aarch64-apple-darwin");
    reveal_strlit("x86_64-apple-darwin");
    reveal_strlit("aarch64-unknown-linux-musl");
    reveal_strlit("x86_64-unknown-linux-musl");
    reveal_strlit("aarch64-unknown-linux-gnu");
    reveal_strlit("x86_64-unknown-linux-gnu");
    reveal_strlit("aarch64-pc-windows-msvc");
    reveal_strlit("x86_64-pc-windows-msvc");
    assert("aarch64-apple-darwin"@ =~= "aarch64"@ + "-apple-darwin"@);
    assert("x86_64-apple-darwin"@ =~= "x86_64"@ + "-apple-darwin"@);
    assert("aarch64-unknown-linux-musl"@ =~= "aarch64"@ + "-unknown-linux-musl"@);
    assert("x86_64-unknown-linux-musl"@ =~= "x86_64"@ + "-unknown-linux-musl"@);
    assert("aarch64-unknown-linux-gnu"@ =~= "aarch64"@ + "-unknown-linux-gnu"@);
    assert("x86_64-unknown-linux-gnu"@ =~= "x86_64"@ + "-unknown-linux-gnu"@);
    assert("aarch64-pc-windows-msvc"@ =~= "aarch64"@ + "-pc-windows-msvc"@);
    assert("x86_64-pc-windows-msvc"@ =~= "x86_64"@ + "-pc-windows-msvc"@);
}

/// What was found is taken for a server exactly where it is a regular file of at least 64 KiB whose
/// first bytes are those of the format: `7f 45 4c 46` on Linux, `4d 5a` on Windows, and on a Mac one
/// of the marks for 32 or 64 bits in either order of bytes, or that of several processors.
pub proof fn law_server_is_known_by_its_first_bytes(probe: FileProbe, format: ExecutableFormat)
    ensures
        ({
            let bytes = probe.signature@;
            let sized = probe.is_file && probe.bytes >= 65536;
            let mark = bytes[0] * 0x1000000 + bytes[1] * 0x10000 + bytes[2] * 0x100 + bytes[3];
            is_server(probe, format) <==> sized && match format {
                ExecutableFormat::Elf => probe.read == 4 && mark == 0x7f454c46,
                ExecutableFormat::Windows => probe.read >= 2 && bytes[0] == 0x4d && bytes[1] == 0x5a,
                ExecutableFormat::MachO => probe.read == 4 && (mark == 0xfeedface || mark
                    == 0xcefaedfe || mark == 0xfeedfacf || mark == 0xcffaedfe || mark
                    == 0xcafebabe),
            }
        }),
{
    let bytes = probe.signature@;
    assert(bytes.len() == 4);
    lemma_first_bytes(bytes, 0x7f, 0x45, 0x4c, 0x46);
    lemma_first_bytes(bytes, 0xfe, 0xed, 0xfa, 0xce);
    lemma_first_bytes(bytes, 0xce, 0xfa, 0xed, 0xfe);
    lemma_first_bytes(bytes, 0xfe, 0xed, 0xfa, 0xcf);
    lemma_first_bytes(bytes, 0xcf, 0xfa, 0xed, 0xfe);
    lemma_first_bytes(bytes, 0xca, 0xfe, 0xba, 0xbe);
    let wanted = seq![0x4du8, 0x5au8];
    let found = bytes.take(2);
    assert(wanted[0] == 0x4d && wanted[1] == 0x5a);
    assert(found[0] == bytes[0] && found[1] == bytes[1]);
    if bytes[0] == 0x4d && bytes[1] == 0x5a {
        assert(found =~= wanted);
    }
}

/// Four bytes are the given ones exactly where they form the same number.
proof fn lemma_first_bytes(bytes: Seq<u8>, a: u8, b: u8, c: u8, d: u8)
    requires
        bytes.len() == 4,
    ensures
        bytes == seq![a, b, c, d] <==> bytes[0] * 0x1000000 + bytes[1] * 0x10000 + bytes[2] * 0x100
            + bytes[3] == a * 0x1000000 + b * 0x10000 + c * 0x100 + d,
{
    let wanted = seq![a, b, c, d];
    assert(wanted[0] == a && wanted[1] == b && wanted[2] == c && wanted[3] == d);
    if bytes[0] == a && bytes[1] == b && bytes[2] == c && bytes[3] == d {
        assert(bytes =~= wanted);
    }
}

/// The server of a platform is published under its name, its target and the ending of executable
/// files. The file in which it is kept names the release too, and it is downloaded from that release of
/// the project.
pub proof fn law_server_is_named_by_target_and_release(platform: PlatformView)
    ensures
        asset_of(platform) == "composer-language-server"@ + "-"@ + platform.target
            + platform.executable_suffix,
        file_of(platform) == "composer-language-server"@ + "-"@ + "0.2.5"@ + "-"@ + platform.target
            + platform.executable_suffix,
        download_address(platform)
            == "https://github.com/BastenIT/zed-composer-support/releases/download/v"@ + "0.2.5"@
            + "/"@ + asset_of(platform),
{
}

} // verus!
