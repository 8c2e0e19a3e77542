use radicle_fetch::oid::{Oid, PublicKey};
use radicle_fetch::pktline::{parse_unsigned, GitRequest, Header, HeaderError, PktError, Reader, RepoId};
use radicle_fetch::stage::Scope;
use radicle_fetch::ui::{
    format_assignees, format_author, format_head, format_id, format_tags, reversable_label,
    AuthorItem, ColumnWidth, FilePath, Network, PatchItem, PatchState,
};
use radicle_fetch::worker::{
    Context, FetchError, FetchRequest, IoErrorKind, Namespaces, Policy, RepoPolicy, RepositoryInfo,
    TrackingConfig, TrackingError, UploadError,
};

fn pkt(payload: &[u8]) -> Vec<u8> {
    let mut v = format!("{:04x}", payload.len() + 4).into_bytes();
    v.extend_from_slice(payload);
    v
}

#[test]
fn header_with_host_and_port() {
    let h = Header::from_bytes(b"git-upload-pack /project.git\0host=myserver.com:9418\0").unwrap();
    assert_eq!(h.path, b"/project.git".to_vec());
    assert_eq!(h.host, Some((b"myserver.com".to_vec(), Some(9418))));
    assert!(h.extra.is_empty());
}

#[test]
fn header_with_extra_parameters() {
    let h = Header::from_bytes(b"git-upload-pack /p\0host=h\0\0version=2\0flag\0").unwrap();
    assert_eq!(h.host, Some((b"h".to_vec(), None)));
    assert_eq!(
        h.extra,
        vec![(b"version".to_vec(), Some(b"2".to_vec())), (b"flag".to_vec(), None)]
    );
}

#[test]
fn header_without_host() {
    let h = Header::from_bytes(b"git-upload-pack /p\0\0version=2\0").unwrap();
    assert_eq!(h.host, None);
    assert_eq!(h.extra, vec![(b"version".to_vec(), Some(b"2".to_vec()))]);
}

#[test]
fn header_errors() {
    assert_eq!(Header::from_bytes(b"git-receive-pack /p\0").err(), Some(HeaderError::UnsupportedService));
    assert_eq!(Header::from_bytes(b"git-upload-pack ").err(), Some(HeaderError::MissingPath));
    assert_eq!(Header::from_bytes(b"git-upload-pack \0").err(), Some(HeaderError::EmptyPath));
    assert_eq!(Header::from_bytes(b"git-upload-pack /p\0hst=x\0").err(), Some(HeaderError::InvalidHost));
    assert_eq!(Header::from_bytes(b"git-upload-pack /p\0host=x:99999\0").err(), Some(HeaderError::InvalidPort));
    assert_eq!(Header::from_bytes(b"git-upload-pack /p\0host=x:\0").err(), Some(HeaderError::InvalidPort));
}

#[test]
fn git_request_names_repo() {
    let g = GitRequest::parse(b"git-upload-pack /rad:z3gqcJUoA1n9HaHKufZs5FCSGazv5\0host=myserver.com\0").unwrap();
    assert_eq!(g.repo.text, b"rad:z3gqcJUoA1n9HaHKufZs5FCSGazv5".to_vec());
    assert_eq!(g.host, Some((b"myserver.com".to_vec(), None)));
    assert!(GitRequest::parse(b"git-upload-pack project\0").is_none());
    assert!(GitRequest::parse(b"git-upload-pack /p\0hst=x\0").is_none());
    assert!(GitRequest::parse(&[0xff]).is_none());
}

#[test]
fn reads_request_packet() {
    let line = b"git-upload-pack /repo\0host=myserver.com\0";
    let mut bytes = pkt(line);
    bytes.extend_from_slice(b"0000");
    let mut r = Reader::new(bytes.clone());
    let (g, raw) = r.read_request_pktline().unwrap();
    assert_eq!(g.repo.text, b"repo".to_vec());
    assert_eq!(raw, pkt(line));
    assert_eq!(r.pos, raw.len());
    assert_eq!(r.read_pktline(), Err(PktError::InvalidInput));
}

#[test]
fn packet_errors() {
    let mut r = Reader::new(b"00".to_vec());
    assert_eq!(r.read_pktline(), Err(PktError::UnexpectedEof));
    let mut r = Reader::new(b"zzzz".to_vec());
    assert_eq!(r.read_pktline(), Err(PktError::InvalidInput));
    let mut r = Reader::new(b"0010abc".to_vec());
    assert_eq!(r.read_pktline(), Err(PktError::UnexpectedEof));
    let mut r = Reader::new(b"0009hello".to_vec());
    assert_eq!(r.read_pktline(), Ok(b"0009hello".to_vec()));
    let mut r = Reader::new(pkt(b"not a request"));
    assert_eq!(r.read_request_pktline().err(), Some(PktError::InvalidInput));
}

#[test]
fn unsigned_numbers() {
    assert_eq!(parse_unsigned(b"001f", 16, 0xffff), Some(31));
    assert_eq!(parse_unsigned(b"FFFF", 16, 0xffff), Some(65535));
    assert_eq!(parse_unsigned(b"+12", 10, 65535), Some(12));
    assert_eq!(parse_unsigned(b"65536", 10, 65535), None);
    assert_eq!(parse_unsigned(b"", 10, 65535), None);
    assert_eq!(parse_unsigned(b"+", 10, 65535), None);
    assert_eq!(parse_unsigned(b"1a", 10, 65535), None);
}

#[test]
fn error_kinds() {
    assert!(FetchError::Io(IoErrorKind::TimedOut).is_timeout());
    assert!(!FetchError::Io(IoErrorKind::Other).is_timeout());
    assert!(!FetchError::CommandFailed { code: 1 }.is_timeout());
    assert!(UploadError::Io(IoErrorKind::UnexpectedEof).is_eof());
    assert!(!UploadError::PacketLine(IoErrorKind::UnexpectedEof).is_eof());
}

#[test]
fn request_remote() {
    let k = PublicKey::new([3; 32]);
    let r = FetchRequest::Responder { remote: k };
    assert_eq!(r.remote().bytes, k.bytes);
    let r = FetchRequest::Initiator {
        rid: RepoId { text: b"rad:z1".to_vec() },
        namespaces: Namespaces::All,
        remote: k,
    };
    assert_eq!(r.remote().bytes, k.bytes);
}

fn context(repo: Option<RepoPolicy>, nodes: Option<Vec<(PublicKey, Policy)>>, remotes: Option<Vec<PublicKey>>) -> Context {
    Context::new(
        TrackingConfig { repo, nodes },
        RepositoryInfo { rid: RepoId { text: b"rad:z1".to_vec() }, remotes },
    )
}

#[test]
fn tracking_decisions() {
    let (a, b) = (PublicKey::new([1; 32]), PublicKey::new([2; 32]));
    let blocked = context(Some(RepoPolicy { policy: Policy::Block, scope: Scope::All }), None, None);
    assert!(matches!(blocked.followed(), Err(TrackingError::BlockedPolicy { .. })));
    let failed = context(None, None, None);
    assert!(matches!(failed.followed(), Err(TrackingError::FailedPolicy { .. })));
    let all = context(Some(RepoPolicy { policy: Policy::Track, scope: Scope::All }), None, Some(vec![a, b]));
    let t = all.followed().unwrap();
    assert_eq!(t.scope, Scope::All);
    assert_eq!(t.remotes.len(), 2);
    let trusted = context(
        Some(RepoPolicy { policy: Policy::Track, scope: Scope::Trusted }),
        Some(vec![(a, Policy::Block), (b, Policy::Track)]),
        None,
    );
    let t = trusted.followed().unwrap();
    assert_eq!(t.scope, Scope::Trusted);
    assert_eq!(t.remotes.iter().map(|k| k.bytes).collect::<Vec<_>>(), vec![b.bytes]);
    let no_nodes = context(Some(RepoPolicy { policy: Policy::Track, scope: Scope::Trusted }), None, None);
    assert!(matches!(no_nodes.followed(), Err(TrackingError::FailedNodes { .. })));
}

const DID: &str = "did:key:z6MkrLMMsiPWUcNPHcRajuMi9mDfYckSoJyPwwnknocNYPm7";

#[test]
fn formats() {
    assert_eq!(format_id("0123456789abcdef"), "0123456");
    let mut bytes = [0u8; 20];
    bytes[0] = 0xab;
    bytes[1] = 0xcd;
    bytes[2] = 0x01;
    bytes[3] = 0x2f;
    assert_eq!(format_head(&Oid::new(bytes)), "abcd012");
    assert_eq!(format_author(DID, false), "did:key\u{2026}JyPwwnk");
    assert_eq!(format_author(DID, true), "did:key\u{2026}JyPwwnk (you)");
    assert_eq!(format_tags(&vec!["bug".to_string(), "ui".to_string()]), "bug,ui");
    assert_eq!(format_tags(&vec![]), "");
    assert_eq!(
        format_assignees(&vec![(DID.to_string(), true), (DID.to_string(), false)]),
        "did:key\u{2026}JyPwwnk (you),did:key\u{2026}JyPwwnk"
    );
    assert_eq!(reversable_label("issues"), " issues ");
}

#[test]
fn items_and_defaults() {
    let item = PatchItem {
        id: "abcdef0123".to_string(),
        state: PatchState::Open,
        title: "t".to_string(),
        author: AuthorItem { did: DID.to_string(), is_you: false },
        head: Oid::new([0; 20]),
        added: 1,
        removed: 2,
        timestamp: 0,
    };
    assert_eq!(item.id(), "abcdef0123");
    assert_eq!(Network::default(), Network::Main);
    assert_ne!(ColumnWidth::Fixed(3), ColumnWidth::Grow);
    assert_eq!(FilePath::from("src/lib.rs".to_string()).to_string(), "src/lib.rs");
}

#[test]
fn header_protocol_version_and_repo() {
    let h = Header::from_bytes(b"git-upload-pack rad:/z3gq\0\0side=1\0version=2\0version=1\0").unwrap();
    assert_eq!(h.protocol_version(), 2);
    assert_eq!(h.repo(), b"z3gq".to_vec());
    let h = Header::from_bytes(b"git-upload-pack /z3gq\0\0version=9\0").unwrap();
    assert_eq!(h.protocol_version(), 0);
    assert_eq!(h.repo(), b"z3gq".to_vec());
    let h = Header::from_bytes(b"git-upload-pack z3gq\0").unwrap();
    assert_eq!(h.protocol_version(), 0);
    assert_eq!(h.repo(), b"z3gq".to_vec());
    let h = Header::from_bytes(b"git-upload-pack /p\0\0version\0version=1\0").unwrap();
    assert_eq!(h.protocol_version(), 1);
}
