use gosu_lsp::extension::{
    asset_name_for, check_language_server_id, executable_path, find_asset_url, install_dir,
    HostArch, HostOs, ReleaseAsset,
};

#[test]
fn asset_names_for_supported_platforms() {
    assert_eq!(
        asset_name_for(HostOs::Mac, HostArch::Aarch64),
        Ok("gosu-lsp-aarch64-apple-darwin.tar.gz".to_string())
    );
    assert_eq!(
        asset_name_for(HostOs::Linux, HostArch::X8664),
        Ok("gosu-lsp-x86_64-unknown-linux-gnu.tar.gz".to_string())
    );
    assert_eq!(
        asset_name_for(HostOs::Mac, HostArch::X8664),
        Ok("gosu-lsp-x86_64-apple-darwin.tar.gz".to_string())
    );
}

#[test]
fn unsupported_platforms_are_refused() {
    assert_eq!(
        asset_name_for(HostOs::Windows, HostArch::X86),
        Err("gosu-lsp does not currently ship Windows assets".to_string())
    );
    assert_eq!(
        asset_name_for(HostOs::Linux, HostArch::X86),
        Err("gosu-lsp does not currently ship x86 assets".to_string())
    );
}

fn asset(name: &str, url: &str) -> ReleaseAsset {
    ReleaseAsset { name: name.to_string(), download_url: url.to_string() }
}

#[test]
fn finds_first_matching_asset() {
    let assets = vec![asset("a.tar.gz", "https://x/a"), asset("b.tar.gz", "https://x/b"), asset("b.tar.gz", "https://x/b2")];
    assert_eq!(find_asset_url(&assets, "b.tar.gz"), Ok("https://x/b".to_string()));
}

#[test]
fn missing_asset_is_reported() {
    let assets = vec![asset("a.tar.gz", "https://x/a")];
    assert_eq!(
        find_asset_url(&assets, "c.tar.gz"),
        Err("could not find asset 'c.tar.gz' in latest mpt83/zed-gosu release".to_string())
    );
}

#[test]
fn install_paths() {
    assert_eq!(install_dir("v0.3.1"), "gosu-lsp/v0.3.1");
    assert_eq!(executable_path("gosu-lsp/v0.3.1"), "gosu-lsp/v0.3.1/gosu-lsp");
}

#[test]
fn language_server_id_is_checked() {
    assert_eq!(check_language_server_id("gosu-lsp"), Ok(()));
    assert_eq!(
        check_language_server_id("other"),
        Err("unknown language server: other".to_string())
    );
}
