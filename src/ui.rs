//! Text shown in terminal views of patches and issues.
use vstd::prelude::*;
use vstd::string::{StrSliceExecFns, StringExecFns};

use crate::oid::Oid;

verus! {

/// How wide a table column is.
#[derive(Clone, Copy, Debug, PartialEq, Eq, Structural)]
pub enum ColumnWidth {
    /// A fixed-size column.
    Fixed(u16),
    /// A growable column.
    Grow,
}

/// The peer-to-peer network.
#[derive(Clone, Copy, Debug, PartialEq, Eq, Structural)]
pub enum Network {
    Main,
    Test,
}

impl Default for Network {
    fn default() -> (r: Network)
        ensures
            r == Network::Main,
    {
        Network::Main
    }
}

/// A file path as shown in a diff.
pub struct FilePath {
    pub path: String,
}

impl FilePath {
    pub fn from(path: String) -> (r: FilePath)
        ensures
            r.path@ == path@,
    {
        FilePath { path }
    }

    pub fn to_string(&self) -> (r: String)
        ensures
            r@ == self.path@,
    {
        String::from_str(self.path.as_str())
    }
}

/// An author shown in a list.
pub struct AuthorItem {
    /// The author's DID, in human-readable form.
    pub did: String,
    /// Whether the author is the local user.
    pub is_you: bool,
}

/// The state of a patch.
#[derive(Clone, Copy, Debug, PartialEq, Eq, Structural)]
pub enum PatchState {
    Open,
    Archived,
    Draft,
    Merged,
}

/// The state of an issue.
#[derive(Clone, Copy, Debug, PartialEq, Eq, Structural)]
pub enum IssueState {
    Open,
    Closed,
}

/// A patch shown in a list.
pub struct PatchItem {
    pub id: String,
    pub state: PatchState,
    pub title: String,
    pub author: AuthorItem,
    pub head: Oid,
    pub added: u16,
    pub removed: u16,
    pub timestamp: u64,
}

impl PatchItem {
    pub fn id(&self) -> (r: String)
        ensures
            r@ == self.id@,
    {
        String::from_str(self.id.as_str())
    }
}

/// An issue shown in a list.
pub struct IssueItem {
    pub id: String,
    pub state: IssueState,
    pub title: String,
    pub author: AuthorItem,
    pub tags: Vec<String>,
    pub assignees: Vec<AuthorItem>,
    pub timestamp: u64,
}

/// The first seven characters of an identifier.
pub fn format_id(id: &str) -> (r: String)
    requires
        id@.len() >= 7,
    ensures
        r@ == id@.subrange(0, 7),
{
    String::from_str(id.substring_char(0, 7))
}

/// The lowercase hexadecimal digit of a nibble.
pub open spec fn hex_char(n: u8) -> char {
    if n < 10 {
        (48 + n) as char
    } else {
        (87 + n) as char
    }
}

/// The first seven hexadecimal digits of an object id.
pub open spec fn short_hex(o: Oid) -> Seq<char> {
    seq![
        hex_char(o.bytes[0] / 16),
        hex_char(o.bytes[0] % 16),
        hex_char(o.bytes[1] / 16),
        hex_char(o.bytes[1] % 16),
        hex_char(o.bytes[2] / 16),
        hex_char(o.bytes[2] % 16),
        hex_char(o.bytes[3] / 16),
    ]
}

fn push_hex(s: &mut String, n: u8)
    requires
        n < 16,
    ensures
        final(s)@ == old(s)@.push(hex_char(n)),
{
    let d: &str = match n {
        0 => "0",
        1 => "1",
        2 => "2",
        3 => "3",
        4 => "4",
        5 => "5",
        6 => "6",
        7 => "7",
        8 => "8",
        9 => "9",
        10 => "a",
        11 => "b",
        12 => "c",
        13 => "d",
        14 => "e",
        _ => "f",
    };
    proof {
        reveal_strlit("0");
        reveal_strlit("1");
        reveal_strlit("2");
        reveal_strlit("3");
        reveal_strlit("4");
        reveal_strlit("5");
        reveal_strlit("6");
        reveal_strlit("7");
        reveal_strlit("8");
        reveal_strlit("9");
        reveal_strlit("a");
        reveal_strlit("b");
        reveal_strlit("c");
        reveal_strlit("d");
        reveal_strlit("e");
        reveal_strlit("f");
    }
    assert(d@ =~= seq![hex_char(n)]);
    s.append(d);
    assert(s@ =~= old(s)@.push(hex_char(n)));
}

/// The first seven hexadecimal digits of a commit id.
pub fn format_head(oid: &Oid) -> (r: String)
    ensures
        r@ == short_hex(*oid),
{
    let mut s = String::new();
    push_hex(&mut s, oid.bytes[0] / 16);
    push_hex(&mut s, oid.bytes[0] % 16);
    push_hex(&mut s, oid.bytes[1] / 16);
    push_hex(&mut s, oid.bytes[1] % 16);
    push_hex(&mut s, oid.bytes[2] / 16);
    push_hex(&mut s, oid.bytes[2] % 16);
    push_hex(&mut s, oid.bytes[3] / 16);
    assert(s@ =~= short_hex(*oid));
    s
}

/// `…`
pub open spec fn ellipsis() -> Seq<char> {
    seq!['\u{2026}']
}

/// ` (you)`
pub open spec fn you_lit() -> Seq<char> {
    seq![' ', '(', 'y', 'o', 'u', ')']
}

/// An abbreviated DID: characters 0 to 7 and 41 to 48, marked where it is
/// the local user.
pub open spec fn author_text(did: Seq<char>, is_you: bool) -> Seq<char> {
    did.subrange(0, 7) + ellipsis() + did.subrange(41, 48) + if is_you {
        you_lit()
    } else {
        Seq::empty()
    }
}

pub fn format_author(did: &str, is_you: bool) -> (r: String)
    requires
        did@.len() >= 48,
    ensures
        r@ == author_text(did@, is_you),
{
    let mut s = String::from_str(did.substring_char(0, 7));
    proof {
        reveal_strlit("\u{2026}");
        reveal_strlit(" (you)");
    }
    s.append("\u{2026}");
    s.append(did.substring_char(41, 48));
    if is_you {
        s.append(" (you)");
    }
    assert(s@ =~= author_text(did@, is_you));
    s
}

/// The texts joined by `,`.
pub open spec fn join(v: Seq<Seq<char>>) -> Seq<char>
    decreases v.len(),
{
    if v.len() == 0 {
        Seq::empty()
    } else if v.len() == 1 {
        v[0]
    } else {
        join(v.drop_last()) + seq![','] + v.last()
    }
}

pub open spec fn strings_view(v: Seq<String>) -> Seq<Seq<char>> {
    v.map_values(|s: String| s@)
}

/// The tags joined by `,`.
pub fn format_tags(tags: &Vec<String>) -> (r: String)
    ensures
        r@ == join(strings_view(tags@)),
{
    let ghost tv = strings_view(tags@);
    let mut out = String::new();
    let mut i: usize = 0;
    proof {
        reveal_strlit(",");
    }
    assert(tv.subrange(0, 0) =~= Seq::<Seq<char>>::empty());
    while i < tags.len()
        invariant
            0 <= i <= tags@.len(),
            tv == strings_view(tags@),
            out@ == join(tv.subrange(0, i as int)),
        decreases tags@.len() - i,
    {
        let ghost sub = tv.subrange(0, i + 1);
        assert(sub.drop_last() =~= tv.subrange(0, i as int));
        assert(sub.last() == tags@[i as int]@);
        if i > 0 {
            out.append(",");
        }
        out.append(tags[i].as_str());
        proof {
            reveal_strlit(",");
            if i == 0 {
                assert(out@ =~= join(sub));
            } else {
                assert(out@ =~= join(sub));
            }
        }
        i = i + 1;
    }
    assert(tv.subrange(0, tags@.len() as int) =~= tv);
    out
}

/// The abbreviated assignees joined by `,`.
pub fn format_assignees(assignees: &Vec<(String, bool)>) -> (r: String)
    requires
        forall|k: int| 0 <= k < assignees@.len() ==> (#[trigger] assignees@[k]).0@.len() >= 48,
    ensures
        r@ == join(assignees@.map_values(|a: (String, bool)| author_text(a.0@, a.1))),
{
    let ghost av = assignees@.map_values(|a: (String, bool)| author_text(a.0@, a.1));
    let mut out = String::new();
    let mut i: usize = 0;
    assert(av.subrange(0, 0) =~= Seq::<Seq<char>>::empty());
    while i < assignees.len()
        invariant
            0 <= i <= assignees@.len(),
            av == assignees@.map_values(|a: (String, bool)| author_text(a.0@, a.1)),
            forall|k: int| 0 <= k < assignees@.len() ==> (#[trigger] assignees@[k]).0@.len() >= 48,
            out@ == join(av.subrange(0, i as int)),
        decreases assignees@.len() - i,
    {
        let ghost sub = av.subrange(0, i + 1);
        assert(sub.drop_last() =~= av.subrange(0, i as int));
        let a = format_author(assignees[i].0.as_str(), assignees[i].1);
        assert(sub.last() == a@);
        if i > 0 {
            proof {
                reveal_strlit(",");
            }
            out.append(",");
        }
        out.append(a.as_str());
        proof {
            reveal_strlit(",");
            assert(out@ =~= join(sub));
        }
        i = i + 1;
    }
    assert(av.subrange(0, assignees@.len() as int) =~= av);
    out
}

/// A label's text, padded with one space on each side.
pub fn reversable_label(content: &str) -> (r: String)
    ensures
        r@ == seq![' '] + content@ + seq![' '],
{
    proof {
        reveal_strlit(" ");
    }
    let mut s = String::from_str(" ");
    s.append(content);
    s.append(" ");
    assert(s@ =~= seq![' '] + content@ + seq![' ']);
    s
}

} // verus!
