use sbobuilder_rs::info_file_parser::multiline_to_vec;
use sbobuilder_rs::info_file_parser::SboInfo;

#[test]
fn valid_sboinfo_parse() {
    let example_info = r#"
PRGNAM="rdesktop"
VERSION="1.4.1"
HOMEPAGE="http://rdesktop.org"
DOWNLOAD="http://downloads.sourceforge.net/rdesktop/rdesktop-1.4.1.tar.gz"
MD5SUM="78dd2bae04edf1cb9f65c29930dcc993"
DOWNLOAD_x86_64=""
MD5SUM_x86_64=""
REQUIRES=""
MAINTAINER="Robby Workman"
EMAIL="rworkman@slackbuilds.org"
"#;
    let mut sb_info = SboInfo::new();
    let _ = sb_info.from_str(example_info);
    assert_eq!(sb_info.program_name, "rdesktop");
    assert_eq!(sb_info.version, "1.4.1");
    assert_eq!(sb_info.homepage, "http://rdesktop.org");
    assert_eq!(
        sb_info.download[0],
        "http://downloads.sourceforge.net/rdesktop/rdesktop-1.4.1.tar.gz"
    );
    assert_eq!(sb_info.md5sum[0], "78dd2bae04edf1cb9f65c29930dcc993");
    assert_eq!(sb_info.download_x86_64.len(), 0);
    assert_eq!(sb_info.md5sum_x86_64.len(), 0);
    assert_eq!(sb_info.requires.len(), 0);
    assert_eq!(sb_info.maintainer, "Robby Workman");
    assert_eq!(sb_info.email, "rworkman@slackbuilds.org");
}

#[test]
fn valid_multiline_sbo_parse() {
    let example_info = r#"
PRGNAM="nordic-gtk-theme"
VERSION="2.2.0"
HOMEPAGE="https://github.com/EliverLara/Nordic"
DOWNLOAD="https://github.com/EliverLara/Nordic/releases/download/v2.2.0/Nordic.tar.xz \
https://github.com/EliverLara/Nordic/releases/download/v2.2.0/Nordic-standard-buttons.tar.xz \
https://github.com/EliverLara/Nordic/releases/download/v2.2.0/Nordic-Polar.tar.xz \
https://github.com/EliverLara/Nordic/releases/download/v2.2.0/Nordic-Polar-standard-buttons.tar.xz \
https://github.com/EliverLara/Nordic/releases/download/v2.2.0/Nordic-darker.tar.xz \
https://github.com/EliverLara/Nordic/releases/download/v2.2.0/Nordic-darker-standard-buttons.tar.xz \
https://github.com/EliverLara/Nordic/releases/download/v2.2.0/Nordic-bluish-accent.tar.xz \
https://github.com/EliverLara/Nordic/releases/download/v2.2.0/Nordic-bluish-accent-standard-buttons.tar.xz"
MD5SUM="a354aa55550f228223b81106dfeb918d \
0c0cb7ee25aafc9c192d8252896e20c3 \
f08a4361637a89923eb08eb4bd099751 \
bad92a77865fefc995aaee2f6e1dc7de \
5b0ee170958261a5ace50fb4f1a4cd7e \
6c301f501fed19c54a6ffbba67c5c43c \
4f6ef676a64a138135b9a666cf536ed8 \
8ed2902d0d0c63d095e1abdbf89aeb65"
DOWNLOAD_x86_64=""
MD5SUM_x86_64=""
REQUIRES=""
MAINTAINER="Marco Lavorini"
EMAIL="sbo.mlavorini@outlook.com"
"#;
    let mut sb_info = SboInfo::new();
    let _ = sb_info.from_str(example_info);
    assert_eq!(sb_info.download.len(), sb_info.md5sum.len());
    assert_eq!(sb_info.download.len(), 8);
}

#[test]
fn multiple_requires_parse() {
    let example_info = r#"
PRGNAM="i3"
VERSION="4.22"
HOMEPAGE="https://www.i3wm.org"
DOWNLOAD="https://i3wm.org/downloads/i3-4.22.tar.xz"
MD5SUM="61c7787808344e2871079a9c93e751c2"
DOWNLOAD_x86_64=""
MD5SUM_x86_64=""
REQUIRES="dmenu libev xcb-util-xrm yajl perl-JSON-XS perl-AnyEvent"
MAINTAINER="Emmanuel N. Millan"
EMAIL="emmanueln@gmail.com"
"#;
    let mut sb_info = SboInfo::new();
    let _ = sb_info.from_str(example_info);
    assert_eq!(sb_info.requires.len(), 6);
}

#[test]
fn requires_readme_exits() {
    let example_info = r#"
PRGNAM="i3"
VERSION="4.22"
HOMEPAGE="https://www.i3wm.org"
DOWNLOAD="https://i3wm.org/downloads/i3-4.22.tar.xz"
MD5SUM="61c7787808344e2871079a9c93e751c2"
DOWNLOAD_x86_64=""
MD5SUM_x86_64=""
REQUIRES="%README%"
MAINTAINER="Emmanuel N. Millan"
EMAIL="emmanueln@gmail.com"
"#;
    let mut sb_info = SboInfo::new();
    let result = sb_info.from_str(example_info);
    assert!(result.is_err());
}

#[test]
fn multiline_eight_continuations_in_order() {
    let text = "DOWNLOAD=\"u0 \\\nu1 \\\nu2 \\\nu3 \\\nu4 \\\nu5 \\\nu6 \\\nu7\"\nMD5SUM=\"m0 \\\nm1 \\\nm2 \\\nm3 \\\nm4 \\\nm5 \\\nm6 \\\nm7\"\n";
    let mut info = SboInfo::new();
    assert!(info.from_str(text).is_ok());
    assert_eq!(info.download.len(), 8);
    assert_eq!(info.md5sum.len(), 8);
    for i in 0..8 {
        assert_eq!(info.download[i], format!("u{}", i));
        assert_eq!(info.md5sum[i], format!("m{}", i));
    }
}

#[test]
fn download_and_checksum_lengths_match() {
    let text = "DOWNLOAD=\"a \\\nb\"\nMD5SUM=\"1 \\\n2\"\nDOWNLOAD_x86_64=\"c\"\nMD5SUM_x86_64=\"3\"\n";
    let mut info = SboInfo::new();
    assert!(info.from_str(text).is_ok());
    assert_eq!(info.download.len(), info.md5sum.len());
    assert_eq!(info.download.len(), 2);
    assert_eq!(info.download_x86_64.len(), info.md5sum_x86_64.len());
    assert_eq!(info.download_x86_64.len(), 1);
}

#[test]
fn readme_amid_other_content_still_fails() {
    let text = "PRGNAM=\"p\"\nREQUIRES=\"alpha %README% beta\"\nVERSION=\"9\"\n";
    let mut info = SboInfo::new();
    assert!(info.from_str(text).is_err());
}

#[test]
fn parse_twice_yields_equal_descriptors() {
    let text = "PRGNAM=\"p\"\nVERSION=\"1.0\"\nREQUIRES=\"a b\"\nDOWNLOAD=\"u\"\nMD5SUM=\"m\"\n";
    let mut first = SboInfo::new();
    let mut second = SboInfo::new();
    assert!(first.from_str(text).is_ok());
    assert!(second.from_str(text).is_ok());
    assert_eq!(first, second);
    let mut again = first.clone();
    assert!(again.from_str(text).is_ok());
    assert_eq!(again, first);
}

#[test]
fn unknown_keys_are_ignored() {
    let text = "SOMEKEY=\"whatever\"\nPRGNAM=\"p\"\nOTHER=\"x\"\n";
    let mut info = SboInfo::new();
    assert!(info.from_str(text).is_ok());
    assert_eq!(info.program_name, "p");
    assert_eq!(info.version, "");
    assert_eq!(info.requires.len(), 0);
}

#[test]
fn later_assignment_wins() {
    let text = "VERSION=\"1\"\nVERSION=\"2\"\nREQUIRES=\"a\"\nREQUIRES=\"b c\"\n";
    let mut info = SboInfo::new();
    assert!(info.from_str(text).is_ok());
    assert_eq!(info.version, "2");
    assert_eq!(info.requires, vec!["b".to_string(), "c".to_string()]);
}

#[test]
fn empty_text_parses_to_empty_descriptor() {
    let mut info = SboInfo::new();
    assert!(info.from_str("").is_ok());
    assert_eq!(info, SboInfo::new());
}

#[test]
fn surrounding_commentary_is_skipped() {
    let text = "# a comment line\nPRGNAM=\"p\"\nsome stray text without quotes\nEMAIL=\"e@x\"\n";
    let mut info = SboInfo::new();
    assert!(info.from_str(text).is_ok());
    assert_eq!(info.program_name, "p");
    assert_eq!(info.email, "e@x");
}

#[test]
fn error_messages_name_the_failure() {
    let mut info = SboInfo::new();
    let err = info.from_str("REQUIRES=\"%README%\"\n").unwrap_err();
    assert_eq!(err.message(), "Package info has errors, unable to proceed");
    assert_eq!(
        sbobuilder_rs::info_file_parser::RequiresError.message(),
        "%README% found in requires, unable to proceed"
    );
}

#[test]
fn multiline_to_vec_strips_markers() {
    let parts = multiline_to_vec("first \\\nsecond \\\nthird");
    assert_eq!(
        parts,
        vec!["first".to_string(), "second".to_string(), "third".to_string()]
    );
    let empty = multiline_to_vec("");
    assert_eq!(empty.len(), 0);
    let repeated = multiline_to_vec("tail \\ \\");
    assert_eq!(repeated, vec!["tail".to_string()]);
}
