use vstd::prelude::*;

verus! {

/// The operating systems that Zed runs on.
#[derive(Clone, Copy, PartialEq, Eq, Structural)]
pub enum HostOs {
    Mac,
    Linux,
    Windows,
}

/// The processor architectures that Zed runs on.
#[derive(Clone, Copy, PartialEq, Eq, Structural)]
pub enum HostArch {
    Aarch64,
    X86,
    X8664,
}

/// A result whose texts are taken by their characters.
pub open spec fn result_view(r: Result<String, String>) -> Result<Seq<char>, Seq<char>> {
    match r {
        Ok(s) => Ok(s@),
        Err(e) => Err(e@),
    }
}

/// The name of the release archive of `gosu-lsp` for a platform, or why there
/// is none: `gosu-lsp-<arch>-<os>.tar.gz` for macOS and Linux on AArch64 and
/// x86-64; Windows is refused first, then x86.
pub open spec fn asset_name(os: HostOs, arch: HostArch) -> Result<Seq<char>, Seq<char>> {
    let os_part = match os {
        HostOs::Mac => Ok("apple-darwin"@),
        HostOs::Linux => Ok("unknown-linux-gnu"@),
        HostOs::Windows => Err("gosu-lsp does not currently ship Windows assets"@),
    };
    let arch_part = match arch {
        HostArch::Aarch64 => Ok("aarch64"@),
        HostArch::X8664 => Ok("x86_64"@),
        HostArch::X86 => Err("gosu-lsp does not currently ship x86 assets"@),
    };
    match (os_part, arch_part) {
        (Err(e), _) => Err(e),
        (Ok(_), Err(e)) => Err(e),
        (Ok(o), Ok(a)) => Ok("gosu-lsp-"@ + a + "-"@ + o + ".tar.gz"@),
    }
}

/// `a` followed by `b`.
fn concat(a: &str, b: &str) -> (r: String)
    ensures
        r@ == a@ + b@,
{
    let mut r = String::from_str(a);
    r.append(b);
    r
}

/// The name of the release archive of `gosu-lsp` for a platform.
pub fn asset_name_for(os: HostOs, arch: HostArch) -> (r: Result<String, String>)
    ensures
        result_view(r) == asset_name(os, arch),
{
    let os_part = match os {
        HostOs::Mac => "apple-darwin",
        HostOs::Linux => "unknown-linux-gnu",
        HostOs::Windows => {
            return Err(String::from_str("gosu-lsp does not currently ship Windows assets"));
        },
    };
    let arch_part = match arch {
        HostArch::Aarch64 => "aarch64",
        HostArch::X8664 => "x86_64",
        HostArch::X86 => {
            return Err(String::from_str("gosu-lsp does not currently ship x86 assets"));
        },
    };
    let mut name = concat("gosu-lsp-", arch_part);
    name.append("-");
    name.append(os_part);
    name.append(".tar.gz");
    Ok(name)
}

/// A file attached to a release.
pub struct ReleaseAsset {
    pub name: String,
    pub download_url: String,
}

/// The download URL of the first asset named `name`.
pub open spec fn asset_url(assets: Seq<ReleaseAsset>, name: Seq<char>) -> Option<Seq<char>>
    decreases assets.len(),
{
    if assets.len() == 0 {
        None
    } else if assets[0].name@ == name {
        Some(assets[0].download_url@)
    } else {
        asset_url(assets.drop_first(), name)
    }
}

/// The error for a release that lacks the asset `name`.
pub open spec fn missing_asset_message(name: Seq<char>) -> Seq<char> {
    "could not find asset '"@ + name + "' in latest mpt83/zed-gosu release"@
}

proof fn lemma_asset_url_found(assets: Seq<ReleaseAsset>, name: Seq<char>, i: int)
    requires
        0 <= i < assets.len(),
        assets[i].name@ == name,
        forall|k: int| 0 <= k < i ==> assets[k].name@ != name,
    ensures
        asset_url(assets, name) == Some(assets[i].download_url@),
    decreases i,
{
    if i > 0 {
        lemma_asset_url_found(assets.drop_first(), name, i - 1);
    }
}

proof fn lemma_asset_url_absent(assets: Seq<ReleaseAsset>, name: Seq<char>)
    requires
        forall|k: int| 0 <= k < assets.len() ==> assets[k].name@ != name,
    ensures
        asset_url(assets, name) is None,
    decreases assets.len(),
{
    if assets.len() > 0 {
        lemma_asset_url_absent(assets.drop_first(), name);
    }
}

/// The download URL of the release asset named `asset_name`, or the error
/// that reports it missing.
pub fn find_asset_url(assets: &Vec<ReleaseAsset>, asset_name: &str) -> (r: Result<String, String>)
    ensures
        result_view(r) == match asset_url(assets@, asset_name@) {
            Some(url) => Ok(url),
            None => Err(missing_asset_message(asset_name@)),
        },
{
    let wanted = String::from_str(asset_name);
    let mut i: usize = 0;
    while i < assets.len()
        invariant
            i <= assets.len(),
            wanted@ == asset_name@,
            forall|k: int| 0 <= k < i ==> assets@[k].name@ != asset_name@,
        decreases assets.len() - i,
    {
        if assets[i].name == wanted {
            proof {
                lemma_asset_url_found(assets@, asset_name@, i as int);
            }
            return Ok(assets[i].download_url.clone());
        }
        i = i + 1;
    }
    proof {
        lemma_asset_url_absent(assets@, asset_name@);
    }
    let mut message = concat("could not find asset '", asset_name);
    message.append("' in latest mpt83/zed-gosu release");
    Err(message)
}

/// The directory that release `version` of `gosu-lsp` is unpacked into.
pub fn install_dir(version: &str) -> (r: String)
    ensures
        r@ == "gosu-lsp/"@ + version@,
{
    concat("gosu-lsp/", version)
}

/// The path of the `gosu-lsp` executable in an install directory.
pub fn executable_path(install_dir: &str) -> (r: String)
    ensures
        r@ == install_dir@ + "/gosu-lsp"@,
{
    concat(install_dir, "/gosu-lsp")
}

/// Accepts the language server `gosu-lsp` and refuses any other.
pub fn check_language_server_id(language_server_id: &str) -> (r: Result<(), String>)
    ensures
        r is Ok <==> language_server_id@ == "gosu-lsp"@,
        r matches Err(e) ==> e@ == "unknown language server: "@ + language_server_id@,
{
    if String::from_str(language_server_id) == String::from_str("gosu-lsp") {
        Ok(())
    } else {
        Err(concat("unknown language server: ", language_server_id))
    }
}

/// Every platform's answer, in full: the archive for AArch64 is built for
/// `aarch64` and the one for x86-64 for `x86_64`, on macOS
/// (`apple-darwin`) and on Linux (`unknown-linux-gnu`) alike; Windows is
/// refused whatever the architecture, and x86 on the other systems.
pub proof fn law_asset_names(os: HostOs, arch: HostArch)
    ensures
        asset_name(os, arch) == match (os, arch) {
            (HostOs::Windows, _) => Err("gosu-lsp does not currently ship Windows assets"@),
            (_, HostArch::X86) => Err("gosu-lsp does not currently ship x86 assets"@),
            (HostOs::Mac, HostArch::Aarch64) => Ok("gosu-lsp-aarch64-apple-darwin.tar.gz"@),
            (HostOs::Mac, HostArch::X8664) => Ok("gosu-lsp-x86_64-apple-darwin.tar.gz"@),
            (HostOs::Linux, HostArch::Aarch64) => Ok("gosu-lsp-aarch64-unknown-linux-gnu.tar.gz"@),
            (HostOs::Linux, HostArch::X8664) => Ok("gosu-lsp-x86_64-unknown-linux-gnu.tar.gz"@),
        },
{
    reveal_strlit("gosu-lsp-");
    reveal_strlit("-");
    reveal_strlit(".tar.gz");
    reveal_strlit("aarch64");
    reveal_strlit("x86_64");
    reveal_strlit("apple-darwin");
    reveal_strlit("unknown-linux-gnu");
    reveal_strlit("gosu-lsp-aarch64-apple-darwin.tar.gz");
    reveal_strlit("gosu-lsp-x86_64-apple-darwin.tar.gz");
    reveal_strlit("gosu-lsp-aarch64-unknown-linux-gnu.tar.gz");
    reveal_strlit("gosu-lsp-x86_64-unknown-linux-gnu.tar.gz");
    match (os, arch) {
        (HostOs::Mac, HostArch::Aarch64) => {
            assert("gosu-lsp-"@ + "aarch64"@ + "-"@ + "apple-darwin"@ + ".tar.gz"@
                =~= "gosu-lsp-aarch64-apple-darwin.tar.gz"@);
        },
        (HostOs::Mac, HostArch::X8664) => {
            assert("gosu-lsp-"@ + "x86_64"@ + "-"@ + "apple-darwin"@ + ".tar.gz"@
                =~= "gosu-lsp-x86_64-apple-darwin.tar.gz"@);
        },
        (HostOs::Linux, HostArch::Aarch64) => {
            assert("gosu-lsp-"@ + "aarch64"@ + "-"@ + "unknown-linux-gnu"@ + ".tar.gz"@
                =~= "gosu-lsp-aarch64-unknown-linux-gnu.tar.gz"@);
        },
        (HostOs::Linux, HostArch::X8664) => {
            assert("gosu-lsp-"@ + "x86_64"@ + "-"@ + "unknown-linux-gnu"@ + ".tar.gz"@
                =~= "gosu-lsp-x86_64-unknown-linux-gnu.tar.gz"@);
        },
        _ => {},
    }
}

/// Different supported platforms get different archives: no machine is
/// handed the archive built for another.
pub proof fn law_platforms_get_their_own_assets(
    os1: HostOs,
    arch1: HostArch,
    os2: HostOs,
    arch2: HostArch,
)
    requires
        asset_name(os1, arch1) is Ok,
        asset_name(os2, arch2) is Ok,
        os1 != os2 || arch1 != arch2,
    ensures
        asset_name(os1, arch1) != asset_name(os2, arch2),
{
    law_asset_names(os1, arch1);
    law_asset_names(os2, arch2);
    reveal_strlit("gosu-lsp-aarch64-apple-darwin.tar.gz");
    reveal_strlit("gosu-lsp-x86_64-apple-darwin.tar.gz");
    reveal_strlit("gosu-lsp-aarch64-unknown-linux-gnu.tar.gz");
    reveal_strlit("gosu-lsp-x86_64-unknown-linux-gnu.tar.gz");
    let a = "gosu-lsp-aarch64-apple-darwin.tar.gz"@;
    let b = "gosu-lsp-x86_64-apple-darwin.tar.gz"@;
    let c = "gosu-lsp-aarch64-unknown-linux-gnu.tar.gz"@;
    let d = "gosu-lsp-x86_64-unknown-linux-gnu.tar.gz"@;
    assert(a[10] != b[10]);
    assert(c[10] != d[10]);
    assert(a.len() != c.len());
    assert(a.len() != d.len());
    assert(b.len() != c.len());
    assert(b.len() != d.len());
}

} // verus!
