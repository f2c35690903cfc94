//! Paths as the scanner sees them: rows of parts, compared part by part.

use vstd::hash_map::StringHashMap;
use vstd::hash_set::StringHashSet;
use vstd::prelude::*;

use crate::order::{
    bytes_key, lemma_lex_asymmetric, lemma_lex_common_start, lemma_lex_extend, lemma_lex_total, lex_before,
};
use crate::text::chars_of;

verus! {

/// What a part of a path is. The order of the variants is the order in which
/// parts of different kinds sort.
#[derive(Clone, Copy, Debug, PartialEq, Eq, Structural)]
pub enum PartKind {
    /// A drive or share in front of the root.
    Prefix,
    /// The separator that makes a path absolute.
    RootDir,
    /// `.`
    CurDir,
    /// `..`
    ParentDir,
    /// A file or directory name.
    Normal,
}

/// One part of a path, with the raw bytes of its name. Only `Prefix` and
/// `Normal` parts have a name; the others leave it empty.
#[derive(Debug)]
pub struct PathPart {
    pub kind: PartKind,
    pub name: Vec<u8>,
}

/// A path: its parts, which say which path it is, and its text, which says
/// how it is shown and saved.
#[derive(Debug)]
pub struct FilePath {
    pub text: String,
    pub parts: Vec<PathPart>,
}

/// A part as a mathematical value.
pub struct PartV {
    pub kind: PartKind,
    pub name: Seq<u8>,
}

/// The parts of a path. Two paths are the same path when their parts agree.
pub type PathId = Seq<PartV>;

/// A path as a mathematical value.
pub struct PathV {
    pub text: Seq<char>,
    pub parts: PathId,
}

impl View for PathPart {
    type V = PartV;

    open spec fn view(&self) -> PartV {
        PartV { kind: self.kind, name: self.name@ }
    }
}

impl DeepView for PathPart {
    type V = PartV;

    open spec fn deep_view(&self) -> PartV {
        self@
    }
}

impl View for FilePath {
    type V = PathV;

    open spec fn view(&self) -> PathV {
        PathV { text: self.text@, parts: self.parts.deep_view() }
    }
}

impl DeepView for FilePath {
    type V = PathV;

    open spec fn deep_view(&self) -> PathV {
        self@
    }
}

impl Clone for PathPart {
    fn clone(&self) -> (r: Self)
        ensures
            r@ == self@,
    {
        let name = self.name.clone();
        assert(name@ =~= self.name@);
        PathPart { kind: self.kind, name }
    }
}

impl Clone for FilePath {
    fn clone(&self) -> (r: Self)
        ensures
            r@ == self@,
    {
        let parts = self.parts.clone();
        assert(parts.deep_view() =~= self.parts.deep_view());
        FilePath { text: self.text.clone(), parts }
    }
}

/// What `String::from_utf8_lossy` makes of a byte string.
pub uninterp spec fn lossy(bytes: Seq<u8>) -> Seq<char>;

/// `String::from_utf8_lossy`: bytes as text, with replacement characters where
/// they are not UTF-8.
#[verifier::external_body]
pub(crate) fn lossy_text(bytes: &Vec<u8>) -> (r: String)
    ensures
        r@ == lossy(bytes@),
{
    String::from_utf8_lossy(bytes).into_owned()
}

/// Whether two byte strings are the same.
pub fn same_bytes(a: &Vec<u8>, b: &Vec<u8>) -> (r: bool)
    ensures
        r == (a@ == b@),
{
    let r = a == b;
    proof {
        if r {
            assert(a@ =~= b@);
        }
    }
    r
}

// -------------------------------------------------------------- path algebra

/// Whether `base` begins `path`, part by part.
pub open spec fn is_under(path: PathId, base: PathId) -> bool {
    base.is_prefix_of(path)
}

/// The name of what a path leads to, if its last part is a name.
pub open spec fn name_of(path: PathId) -> Option<Seq<u8>> {
    if path.len() > 0 && path.last().kind == PartKind::Normal {
        Some(path.last().name)
    } else {
        None
    }
}

/// The parts of the directory that holds a path.
pub open spec fn parent_of(path: PathId) -> Option<PathId> {
    if path.len() > 0 && path.last().kind != PartKind::RootDir && path.last().kind != PartKind::Prefix {
        Some(path.drop_last())
    } else {
        None
    }
}

/// How one part of a path shows in its text.
pub open spec fn shown_part(part: PartV) -> Seq<char> {
    match part.kind {
        PartKind::CurDir => seq!['.'],
        PartKind::ParentDir => seq!['.', '.'],
        _ => lossy(part.name),
    }
}

/// Whether a path begins with a drive or a share.
pub open spec fn has_prefix(path: PathId) -> bool {
    path.len() > 0 && path[0].kind == PartKind::Prefix
}

/// The separator of a path: a backslash behind a drive, else a slash.
pub open spec fn separator(path: PathId) -> char {
    if has_prefix(path) {
        '\\'
    } else {
        '/'
    }
}

/// Whether a character separates the parts of a path.
pub open spec fn separates(path: PathId, c: char) -> bool {
    c == '/' || (has_prefix(path) && c == '\\')
}

/// How much of the text of a path its root takes up.
pub open spec fn root_len(path: PathId) -> nat {
    if has_prefix(path) {
        lossy(path[0].name).len() + (if path.len() >= 2 && path[1].kind == PartKind::RootDir {
            1nat
        } else {
            0nat
        })
    } else if path.len() > 0 && path[0].kind == PartKind::RootDir {
        1
    } else {
        0
    }
}

/// The beginning of the text of a path without the separators and the `.` at its
/// end, which are no parts of it. The root stays.
pub open spec fn tail_cut(path: PathId, text: Seq<char>) -> Seq<char>
    decreases text.len(),
{
    let n = text.len();
    if n > root_len(path) && n > 0 && separates(path, text[n - 1]) {
        tail_cut(path, text.take(n - 1))
    } else if n > root_len(path) && n >= 2 && text[n - 1] == '.' && separates(path, text[n - 2]) {
        tail_cut(path, text.take(n - 1))
    } else {
        text
    }
}

/// The text of a path without its last part and what separates it from the one
/// before; a root stays.
pub open spec fn parent_text(path: PathV) -> Seq<char> {
    let whole = tail_cut(path.parts, path.text);
    let n = shown_part(path.parts.last()).len();
    if n >= whole.len() {
        Seq::empty()
    } else {
        tail_cut(path.parts, whole.take(whole.len() - n))
    }
}

/// A path with the directory that holds it, or nothing above a root.
pub open spec fn parent_path(path: PathV) -> Option<PathV> {
    match parent_of(path.parts) {
        Some(parts) => Some(PathV { text: parent_text(path), parts }),
        None => None,
    }
}

/// A path one name deeper.
pub open spec fn child_path(path: PathV, name: Seq<u8>) -> PathV {
    PathV {
        text: if path.text.len() == 0 || separates(path.parts, path.text.last()) {
            path.text + lossy(name)
        } else {
            path.text.push(separator(path.parts)) + lossy(name)
        },
        parts: path.parts.push(PartV { kind: PartKind::Normal, name }),
    }
}

/// The position of the last dot of a name, or -1.
pub open spec fn last_dot(name: Seq<u8>) -> int
    decreases name.len(),
{
    if name.len() == 0 {
        -1
    } else if name.last() == 46u8 {
        name.len() - 1
    } else {
        last_dot(name.drop_last())
    }
}

/// What follows the last dot of a name, unless that dot begins the name. The
/// name `..` has no extension.
pub open spec fn name_extension(name: Seq<u8>) -> Option<Seq<u8>> {
    let dot = last_dot(name);
    if dot <= 0 || name == seq![46u8, 46u8] {
        None
    } else {
        Some(name.skip(dot + 1))
    }
}

proof fn lemma_last_dot(name: Seq<u8>, i: int)
    requires
        -1 <= i < name.len(),
        i >= 0 ==> name[i] == 46u8,
        forall|j: int| i < j < name.len() ==> name[j] != 46u8,
    ensures
        last_dot(name) == i,
    decreases name.len(),
{
    if name.len() > 0 && i < name.len() - 1 {
        assert(name.last() != 46u8);
        lemma_last_dot(name.drop_last(), i);
    }
}

/// The extension of a name, without its dot.
pub fn extension_of_name(name: &[u8]) -> (r: Option<Vec<u8>>)
    ensures
        match r {
            Some(e) => name_extension(name@) == Some(e@),
            None => name_extension(name@) is None,
        },
{
    let mut i: usize = name.len();
    while i > 0
        invariant
            i <= name@.len(),
            forall|j: int| i <= j < name@.len() ==> name@[j] != 46u8,
        decreases i,
    {
        if name[i - 1] == 46u8 {
            proof {
                lemma_last_dot(name@, i - 1);
            }
            if i == 1 {
                return None;
            }
            if name.len() == 2 && name[0] == 46u8 {
                assert(name@ =~= seq![46u8, 46u8]);
                return None;
            }
            assert(name@ != seq![46u8, 46u8]) by {
                if name@ == seq![46u8, 46u8] {
                    assert(name@.len() == 2 && name@[0] == 46u8);
                }
            }
            let mut e: Vec<u8> = Vec::new();
            let mut k: usize = i;
            while k < name.len()
                invariant
                    i <= k <= name@.len(),
                    e@ == name@.subrange(i as int, k as int),
                decreases name@.len() - k,
            {
                e.push(name[k]);
                k = k + 1;
                assert(e@ =~= name@.subrange(i as int, k as int));
            }
            assert(e@ =~= name@.skip(i as int));
            return Some(e);
        }
        i = i - 1;
    }
    proof {
        lemma_last_dot(name@, -1);
    }
    None
}

/// How one part shows.
fn show_part(part: &PathPart) -> (r: String)
    ensures
        r@ == shown_part(part@),
{
    match part.kind {
        PartKind::CurDir => {
            let mut s = String::new();
            s.push('.');
            assert(s@ =~= seq!['.']);
            s
        },
        PartKind::ParentDir => {
            let mut s = String::new();
            s.push('.');
            s.push('.');
            assert(s@ =~= seq!['.', '.']);
            s
        },
        _ => lossy_text(&part.name),
    }
}

impl PathPart {
    /// A name.
    pub fn named(name: Vec<u8>) -> (r: PathPart)
        ensures
            r@ == (PartV { kind: PartKind::Normal, name: name@ }),
    {
        PathPart { kind: PartKind::Normal, name }
    }

    /// Whether two parts are the same.
    pub fn same(&self, other: &PathPart) -> (r: bool)
        ensures
            r == (self@ == other@),
    {
        self.kind == other.kind && same_bytes(&self.name, &other.name)
    }
}

impl FilePath {
    /// A path of these parts that shows as `text`.
    pub fn new(text: String, parts: Vec<PathPart>) -> (r: FilePath)
        ensures
            r@ == (PathV { text: text@, parts: parts.deep_view() }),
    {
        FilePath { text, parts }
    }

    /// The text of the path.
    pub fn shown(&self) -> (r: String)
        ensures
            r@ == self@.text,
    {
        self.text.clone()
    }

    /// How many parts the path has.
    pub fn depth(&self) -> (r: usize)
        ensures
            r == self@.parts.len(),
    {
        self.parts.len()
    }

    /// Whether this path is `base` or lies under it.
    pub fn starts_with(&self, base: &FilePath) -> (r: bool)
        ensures
            r == is_under(self@.parts, base@.parts),
    {
        if base.parts.len() > self.parts.len() {
            return false;
        }
        let mut i: usize = 0;
        while i < base.parts.len()
            invariant
                i <= base.parts@.len() <= self.parts@.len(),
                forall|j: int| 0 <= j < i ==> self@.parts[j] == #[trigger] base@.parts[j],
            decreases base.parts@.len() - i,
        {
            if !self.parts[i].same(&base.parts[i]) {
                assert(self@.parts.take(base@.parts.len() as int)[i as int] != base@.parts[i as int]);
                assert(self@.parts[i as int] != base@.parts[i as int]);
                return false;
            }
            assert(self@.parts[i as int] == base@.parts[i as int]);
            i = i + 1;
        }
        assert(base@.parts =~= self@.parts.subrange(0, base@.parts.len() as int));
        true
    }

    /// Whether two paths are the same path.
    pub fn same(&self, other: &FilePath) -> (r: bool)
        ensures
            r == (self@.parts == other@.parts),
    {
        if self.parts.len() != other.parts.len() {
            return false;
        }
        let r = self.starts_with(other);
        proof {
            assert(self@.parts.subrange(0, self@.parts.len() as int) =~= self@.parts);
        }
        r
    }

    /// The name of what the path leads to.
    pub fn file_name(&self) -> (r: Option<Vec<u8>>)
        ensures
            match r {
                Some(n) => name_of(self@.parts) == Some(n@),
                None => name_of(self@.parts) is None,
            },
    {
        let n = self.parts.len();
        if n == 0 {
            return None;
        }
        match self.parts[n - 1].kind {
            PartKind::Normal => {
                let name = self.parts[n - 1].name.clone();
                assert(name@ =~= self.parts@[n - 1].name@);
                Some(name)
            },
            _ => None,
        }
    }

    fn is_separator(&self, c: char) -> (r: bool)
        ensures
            r == separates(self@.parts, c),
    {
        c == '/' || (c == '\\' && self.parts.len() > 0 && self.parts[0].kind == PartKind::Prefix)
    }

    fn root_length(&self) -> (r: usize)
        ensures
            r <= root_len(self@.parts),
            r < usize::MAX ==> r == root_len(self@.parts),
    {
        if self.parts.len() == 0 {
            return 0;
        }
        match self.parts[0].kind {
            PartKind::Prefix => {
                let shown = chars_of(lossy_text(&self.parts[0].name).as_str());
                if self.parts.len() >= 2 && self.parts[1].kind == PartKind::RootDir && shown.len() < usize::MAX {
                    shown.len() + 1
                } else {
                    shown.len()
                }
            },
            PartKind::RootDir => 1,
            _ => 0,
        }
    }

    /// Where the first `n` characters of the path end without what is no part.
    fn cut_tail(&self, chars: &Vec<char>, n: usize) -> (r: usize)
        requires
            n <= chars@.len(),
        ensures
            r <= n,
            chars@.take(r as int) == tail_cut(self@.parts, chars@.take(n as int)),
    {
        let root: usize = self.root_length();
        let mut end: usize = n;
        while end > root && (self.is_separator(chars[end - 1]) || (end >= 2 && chars[end - 1] == '.'
            && self.is_separator(chars[end - 2])))
            invariant
                end <= n <= chars@.len(),
                root <= root_len(self@.parts),
                root < usize::MAX ==> root == root_len(self@.parts),
                tail_cut(self@.parts, chars@.take(n as int)) == tail_cut(self@.parts, chars@.take(end as int)),
            decreases end,
        {
            assert(chars@.take(end as int).take(end - 1) =~= chars@.take(end - 1));
            end = end - 1;
        }
        end
    }

    /// The directory that holds the path.
    pub fn parent(&self) -> (r: Option<FilePath>)
        ensures
            match r {
                Some(p) => parent_path(self@) == Some(p@),
                None => parent_path(self@) is None,
            },
    {
        let n = self.parts.len();
        if n == 0 {
            return None;
        }
        if self.parts[n - 1].kind == PartKind::RootDir || self.parts[n - 1].kind == PartKind::Prefix {
            return None;
        }
        let mut parts: Vec<PathPart> = Vec::new();
        let mut i: usize = 0;
        while i < n - 1
            invariant
                i <= n - 1,
                n == self.parts@.len(),
                parts@.len() == i,
                forall|j: int| 0 <= j < i ==> (#[trigger] parts@[j])@ == self.parts@[j]@,
            decreases n - i,
        {
            parts.push(self.parts[i].clone());
            i = i + 1;
        }
        assert(parts.deep_view() =~= self@.parts.drop_last());
        let last = chars_of(show_part(&self.parts[n - 1]).as_str());
        let chars = chars_of(self.text.as_str());
        assert(chars@.take(chars@.len() as int) =~= chars@);
        let whole: usize = self.cut_tail(&chars, chars.len());
        let text = if last.len() >= whole {
            String::new()
        } else {
            let end: usize = self.cut_tail(&chars, whole - last.len());
            assert(chars@.take(whole as int).take(whole - last.len()) =~= chars@.take(whole - last.len()));
            crate::text::text_of(&chars, 0, end)
        };
        assert(text@ =~= parent_text(self@));
        Some(FilePath { text, parts })
    }

    /// The path one name deeper.
    pub fn child(&self, name: Vec<u8>) -> (r: FilePath)
        ensures
            r@ == child_path(self@, name@),
    {
        let chars = chars_of(self.text.as_str());
        let mut text = self.text.clone();
        if chars.len() > 0 && !self.is_separator(chars[chars.len() - 1]) {
            if self.parts.len() > 0 && self.parts[0].kind == PartKind::Prefix {
                text.push('\\');
            } else {
                text.push('/');
            }
        }
        text.append(lossy_text(&name).as_str());
        let mut parts = self.parts.clone();
        assert(parts.deep_view() =~= self.parts.deep_view());
        let part = PathPart::named(name);
        parts.push(part);
        assert(parts.deep_view() =~= self.parts.deep_view().push(part@));
        FilePath { text, parts }
    }
}

// ------------------------------------------------------------- order of paths

pub open spec fn kind_rank(kind: PartKind) -> u64 {
    match kind {
        PartKind::Prefix => 1,
        PartKind::RootDir => 2,
        PartKind::CurDir => 3,
        PartKind::ParentDir => 4,
        PartKind::Normal => 5,
    }
}

/// One part as numbers: its kind, its bytes, and a closing zero that sorts
/// before every byte.
pub open spec fn part_code(part: PartV) -> Seq<u64> {
    seq![kind_rank(part.kind)] + part.name.map_values(|b: u8| (b + 1) as u64) + seq![0u64]
}

/// A path as numbers, part after part. Comparing these rows compares paths
/// part by part: by kind, then by name, a path before all that lie under it.
pub open spec fn path_code(path: PathId) -> Seq<u64>
    decreases path.len(),
{
    if path.len() == 0 {
        Seq::empty()
    } else {
        path_code(path.drop_last()) + part_code(path.last())
    }
}

pub proof fn lemma_code_concat(a: PathId, b: PathId)
    ensures
        path_code(a + b) == path_code(a) + path_code(b),
    decreases b.len(),
{
    if b.len() == 0 {
        assert(a + b =~= a);
        assert(path_code(a) + path_code(b) =~= path_code(a));
    } else {
        lemma_code_concat(a, b.drop_last());
        assert((a + b).drop_last() =~= a + b.drop_last());
        assert((a + b).last() == b.last());
        assert(path_code(a + b) =~= path_code(a) + path_code(b));
    }
}

proof fn lemma_code_first(path: PathId)
    requires
        path.len() > 0,
    ensures
        path_code(path) == part_code(path[0]) + path_code(path.skip(1)),
{
    lemma_code_concat(seq![path[0]], path.skip(1));
    assert(seq![path[0]] + path.skip(1) =~= path);
    assert(seq![path[0]].drop_last() =~= Seq::<PartV>::empty());
    assert(path_code(Seq::<PartV>::empty()) =~= Seq::<u64>::empty());
    assert(path_code(seq![path[0]]) =~= part_code(path[0]));
}

proof fn lemma_part_code_delimits(p: PartV, x: Seq<u64>, q: PartV, y: Seq<u64>)
    requires
        part_code(p) + x == part_code(q) + y,
    ensures
        p == q,
        x == y,
{
    let l = part_code(p) + x;
    let r = part_code(q) + y;
    let n = p.name.len() as int;
    let m = q.name.len() as int;
    assert(l[0] == kind_rank(p.kind));
    assert(r[0] == kind_rank(q.kind));
    assert(p.kind == q.kind);
    assert(forall|i: int| 0 <= i < n ==> l[i + 1] == (p.name[i] + 1) as u64);
    assert(forall|i: int| 0 <= i < m ==> r[i + 1] == (q.name[i] + 1) as u64);
    assert(l[n + 1] == 0);
    assert(r[m + 1] == 0);
    if n < m {
        assert(r[n + 1] == (q.name[n] + 1) as u64);
        assert(false);
    }
    if m < n {
        assert(l[m + 1] == (p.name[m] + 1) as u64);
        assert(false);
    }
    assert forall|i: int| 0 <= i < n implies p.name[i] == q.name[i] by {
        assert(l[i + 1] == r[i + 1]);
    }
    assert(p.name =~= q.name);
    assert(x =~= l.skip(n + 2));
    assert(y =~= r.skip(m + 2));
}

/// The numbers of one path begin those of another only where the path does.
pub proof fn lemma_code_prefix(a: PathId, b: PathId)
    requires
        path_code(a).is_prefix_of(path_code(b)),
    ensures
        a.is_prefix_of(b),
    decreases a.len(),
{
    if a.len() == 0 {
        assert(a =~= b.subrange(0, 0));
    } else {
        lemma_code_first(a);
        let ca = path_code(a);
        let cb = path_code(b);
        assert(ca.len() > 0) by {
            assert(part_code(a[0]).len() > 0);
        }
        if b.len() == 0 {
            assert(cb.len() == 0);
            assert(false);
        }
        lemma_code_first(b);
        let rest = cb.skip(ca.len() as int);
        assert(cb =~= ca + rest);
        assert(ca + rest =~= part_code(a[0]) + (path_code(a.skip(1)) + rest));
        lemma_part_code_delimits(a[0], path_code(a.skip(1)) + rest, b[0], path_code(b.skip(1)));
        assert(path_code(a.skip(1)) =~= path_code(b.skip(1)).subrange(0, path_code(a.skip(1)).len() as int));
        lemma_code_prefix(a.skip(1), b.skip(1));
        assert(a =~= b.subrange(0, a.len() as int)) by {
            assert forall|i: int| 0 <= i < a.len() implies a[i] == b[i] by {
                if i > 0 {
                    assert(a.skip(1)[i - 1] == b.skip(1).subrange(0, a.len() - 1)[i - 1]);
                }
            }
        }
    }
}

/// Different paths have different numbers.
pub proof fn lemma_code_injective(a: PathId, b: PathId)
    requires
        path_code(a) == path_code(b),
    ensures
        a == b,
{
    let c = path_code(a);
    assert(c =~= c.subrange(0, c.len() as int));
    lemma_code_prefix(a, b);
    lemma_code_prefix(b, a);
    assert(a =~= b);
}

/// Whether one part sorts before another: by kind, then by the bytes of its name.
pub open spec fn part_before(p: PartV, q: PartV) -> bool {
    kind_rank(p.kind) < kind_rank(q.kind) || (p.kind == q.kind && lex_before(bytes_key(p.name), bytes_key(q.name)))
}

/// Whether one path sorts before another: by the first part in which they
/// differ, and before all that lie under it.
pub open spec fn path_before(a: PathId, b: PathId) -> bool
    decreases a.len(),
{
    if b.len() == 0 {
        false
    } else if a.len() == 0 {
        true
    } else if a[0] == b[0] {
        path_before(a.skip(1), b.skip(1))
    } else {
        part_before(a[0], b[0])
    }
}

/// The numbers of a name, as they stand in those of a part.
spec fn name_code(name: Seq<u8>) -> Seq<u64> {
    name.map_values(|b: u8| (b + 1) as u64) + seq![0u64]
}

proof fn lemma_names_sort(n: Seq<u8>, m: Seq<u8>)
    requires
        n != m,
    ensures
        lex_before(name_code(n), name_code(m)) == lex_before(bytes_key(n), bytes_key(m)),
    decreases n.len(),
{
    let (x, y) = (name_code(n), name_code(m));
    let (bx, by) = (bytes_key(n), bytes_key(m));
    if n.len() == 0 || m.len() == 0 {
        if n.len() == 0 && m.len() == 0 {
            assert(n =~= m);
        }
    } else {
        assert(x[0] == n[0] + 1 && y[0] == m[0] + 1);
        assert(bx[0] == n[0] && by[0] == m[0]);
        assert(x.skip(1) =~= name_code(n.skip(1)));
        assert(y.skip(1) =~= name_code(m.skip(1)));
        assert(bx.skip(1) =~= bytes_key(n.skip(1)));
        assert(by.skip(1) =~= bytes_key(m.skip(1)));
        if n[0] == m[0] {
            if n.skip(1) == m.skip(1) {
                assert(n =~= seq![n[0]] + n.skip(1));
                assert(m =~= seq![m[0]] + m.skip(1));
            }
            lemma_names_sort(n.skip(1), m.skip(1));
        }
    }
}

proof fn lemma_part_not_prefix(p: PartV, q: PartV)
    requires
        part_code(p).is_prefix_of(part_code(q)),
    ensures
        p == q,
{
    let (x, y) = (part_code(p), part_code(q));
    assert(x + y.skip(x.len() as int) =~= y + Seq::<u64>::empty());
    lemma_part_code_delimits(p, y.skip(x.len() as int), q, Seq::empty());
}

proof fn lemma_parts_sort(p: PartV, x: Seq<u64>, q: PartV, y: Seq<u64>)
    requires
        p != q,
    ensures
        lex_before(part_code(p) + x, part_code(q) + y) == part_before(p, q),
{
    let (c, d) = (part_code(p), part_code(q));
    assert(c[0] == kind_rank(p.kind) && d[0] == kind_rank(q.kind));
    assert(c.skip(1) =~= name_code(p.name));
    assert(d.skip(1) =~= name_code(q.name));
    assert(lex_before(c, d) == part_before(p, q)) by {
        if p.kind == q.kind {
            lemma_names_sort(p.name, q.name);
        }
    }
    if c.is_prefix_of(d) {
        lemma_part_not_prefix(p, q);
    }
    if d.is_prefix_of(c) {
        lemma_part_not_prefix(q, p);
    }
    lemma_lex_total(c, d);
    assert(c != d) by {
        if c == d {
            assert(c =~= d.subrange(0, c.len() as int));
        }
    }
    if lex_before(c, d) {
        lemma_lex_extend(c, d, x, y);
    } else {
        lemma_lex_extend(d, c, y, x);
        lemma_lex_asymmetric(d + y, c + x);
    }
}

/// Of two different paths one sorts before the other.
pub proof fn law_paths_order_total(a: PathId, b: PathId)
    ensures
        path_before(a, b) || path_before(b, a) || a == b,
    decreases a.len(),
{
    if a.len() == 0 {
        if b.len() == 0 {
            assert(a =~= b);
        }
    } else if b.len() > 0 {
        if a[0] == b[0] {
            law_paths_order_total(a.skip(1), b.skip(1));
            if a.skip(1) == b.skip(1) {
                assert(a =~= seq![a[0]] + a.skip(1));
                assert(b =~= seq![b[0]] + b.skip(1));
            }
        } else if a[0].kind == b[0].kind {
            let (x, y) = (a[0].name, b[0].name);
            crate::order::lemma_lex_total(bytes_key(x), bytes_key(y));
            if bytes_key(x) == bytes_key(y) {
                assert(bytes_key(x).len() == x.len() && bytes_key(y).len() == y.len());
                assert forall|i: int| 0 <= i < x.len() implies x[i] == y[i] by {
                    assert(bytes_key(x)[i] == x[i] as u64);
                    assert(bytes_key(y)[i] == y[i] as u64);
                }
                assert(x =~= y);
            }
        }
    }
}

/// Comparing the numbers of two paths compares the paths part by part.
pub proof fn law_paths_sort_by_parts(a: PathId, b: PathId)
    ensures
        lex_before(path_code(a), path_code(b)) == path_before(a, b),
    decreases a.len(),
{
    if a.len() == 0 || b.len() == 0 {
        if b.len() > 0 {
            lemma_code_first(b);
            assert(part_code(b[0]).len() > 0);
        }
    } else {
        lemma_code_first(a);
        lemma_code_first(b);
        if a[0] == b[0] {
            lemma_lex_common_start(part_code(a[0]), path_code(a.skip(1)), path_code(b.skip(1)));
            law_paths_sort_by_parts(a.skip(1), b.skip(1));
        } else {
            lemma_parts_sort(a[0], path_code(a.skip(1)), b[0], path_code(b.skip(1)));
        }
    }
}

impl FilePath {
    /// The numbers by which the path sorts.
    pub fn sort_key(&self) -> (k: Vec<u64>)
        ensures
            k@ == path_code(self@.parts),
    {
        let mut k: Vec<u64> = Vec::new();
        let mut i: usize = 0;
        assert(self@.parts.take(0) =~= Seq::<PartV>::empty());
        while i < self.parts.len()
            invariant
                i <= self.parts@.len(),
                k@ == path_code(self@.parts.take(i as int)),
            decreases self.parts@.len() - i,
        {
            let ghost start = k@;
            let part = &self.parts[i];
            let rank: u64 = match part.kind {
                PartKind::Prefix => 1,
                PartKind::RootDir => 2,
                PartKind::CurDir => 3,
                PartKind::ParentDir => 4,
                PartKind::Normal => 5,
            };
            k.push(rank);
            let mut j: usize = 0;
            while j < part.name.len()
                invariant
                    j <= part.name@.len(),
                    k@ == start + seq![rank] + part.name@.take(j as int).map_values(|b: u8| (b + 1) as u64),
                decreases part.name@.len() - j,
            {
                k.push(part.name[j] as u64 + 1);
                j = j + 1;
                assert(k@ =~= start + seq![rank] + part.name@.take(j as int).map_values(|b: u8| (b + 1) as u64));
            }
            k.push(0);
            assert(part.name@.take(j as int) =~= part.name@);
            let ghost upto = self@.parts.take(i + 1);
            assert(upto.drop_last() =~= self@.parts.take(i as int));
            assert(upto.last() == part@);
            assert(k@ =~= start + part_code(part@));
            i = i + 1;
        }
        assert(self@.parts.take(i as int) =~= self@.parts);
        k
    }
}

// --------------------------------------------------------- sets, maps of paths

spec fn code_char(c: u64) -> char {
    c as char
}

/// A text that stands for one path and no other.
pub closed spec fn path_key(path: PathId) -> Seq<char> {
    path_code(path).map_values(|c: u64| code_char(c))
}

proof fn lemma_code_small(path: PathId)
    ensures
        forall|i: int| 0 <= i < path_code(path).len() ==> #[trigger] path_code(path)[i] <= 256,
    decreases path.len(),
{
    if path.len() > 0 {
        lemma_code_small(path.drop_last());
        let head = path_code(path.drop_last());
        let tail = part_code(path.last());
        assert forall|i: int| 0 <= i < path_code(path).len() implies #[trigger] path_code(path)[i] <= 256 by {
            if i < head.len() {
                assert(path_code(path)[i] == head[i]);
            } else {
                let j = i - head.len();
                assert(path_code(path)[i] == tail[j]);
                if 0 < j && j < tail.len() - 1 {
                    assert(tail[j] == (path.last().name[j - 1] + 1) as u64);
                }
            }
        }
    }
}

pub proof fn lemma_key_injective(a: PathId, b: PathId)
    requires
        path_key(a) == path_key(b),
    ensures
        a == b,
{
    lemma_code_small(a);
    lemma_code_small(b);
    let ca = path_code(a);
    let cb = path_code(b);
    assert(ca.len() == path_key(a).len());
    assert(cb.len() == path_key(b).len());
    assert forall|i: int| 0 <= i < ca.len() implies ca[i] == cb[i] by {
        assert(path_key(a)[i] == code_char(ca[i]));
        assert(path_key(b)[i] == code_char(cb[i]));
    }
    assert(ca =~= cb);
    lemma_code_injective(a, b);
}

fn key_text(path: &FilePath) -> (k: String)
    ensures
        k@ == path_key(path@.parts),
{
    let code = path.sort_key();
    let mut k = String::new();
    let mut i: usize = 0;
    proof {
        lemma_code_small(path@.parts);
    }
    while i < code.len()
        invariant
            i <= code@.len(),
            forall|j: int| 0 <= j < code@.len() ==> #[trigger] code@[j] <= 256,
            k@ == code@.take(i as int).map_values(|c: u64| code_char(c)),
        decreases code@.len() - i,
    {
        let c: u64 = code[i];
        if c < 256 {
            k.push((c as u8) as char);
        } else {
            k.push('\u{100}');
        }
        i = i + 1;
        assert(k@ =~= code@.take(i as int).map_values(|c: u64| code_char(c)));
    }
    assert(code@.take(i as int) =~= code@);
    k
}

/// A set of paths.
pub struct PathSet {
    keys: StringHashSet,
}

impl View for PathSet {
    type V = Set<PathId>;

    closed spec fn view(&self) -> Set<PathId> {
        Set::new(|p: PathId| self.keys@.contains(path_key(p)))
    }
}

impl PathSet {
    pub fn new() -> (r: PathSet)
        ensures
            r@ == Set::<PathId>::empty(),
    {
        let r = PathSet { keys: StringHashSet::new() };
        assert(r@ =~= Set::<PathId>::empty());
        r
    }

    pub fn contains(&self, path: &FilePath) -> (r: bool)
        ensures
            r == self@.contains(path@.parts),
    {
        self.keys.contains(key_text(path).as_str())
    }

    /// Adds a path; says whether it is new.
    pub fn insert(&mut self, path: &FilePath) -> (fresh: bool)
        ensures
            final(self)@ == old(self)@.insert(path@.parts),
            fresh == !old(self)@.contains(path@.parts),
    {
        let fresh = self.keys.insert(key_text(path));
        proof {
            assert forall|p: PathId| final(self)@.contains(p) == old(self)@.insert(path@.parts).contains(p) by {
                if path_key(p) == path_key(path@.parts) {
                    lemma_key_injective(p, path@.parts);
                }
            }
            assert(self@ =~= old(self)@.insert(path@.parts));
        }
        fresh
    }
}

/// A map from paths to values.
#[verifier::reject_recursive_types(T)]
pub struct PathMap<T> {
    cells: StringHashMap<T>,
}

impl<T> View for PathMap<T> {
    type V = Map<PathId, T>;

    closed spec fn view(&self) -> Map<PathId, T> {
        Map::new(|p: PathId| self.cells@.contains_key(path_key(p)), |p: PathId| self.cells@[path_key(p)])
    }
}

impl<T> PathMap<T> {
    pub fn new() -> (r: PathMap<T>)
        ensures
            r@ == Map::<PathId, T>::empty(),
    {
        let r = PathMap { cells: StringHashMap::new() };
        assert(r@ =~= Map::<PathId, T>::empty());
        r
    }

    pub fn get(&self, path: &FilePath) -> (r: Option<&T>)
        ensures
            match r {
                Some(v) => self@.contains_key(path@.parts) && *v == self@[path@.parts],
                None => !self@.contains_key(path@.parts),
            },
    {
        self.cells.get(key_text(path).as_str())
    }

    pub fn insert(&mut self, path: &FilePath, value: T)
        ensures
            final(self)@ == old(self)@.insert(path@.parts, value),
    {
        self.cells.insert(key_text(path), value);
        proof {
            assert forall|p: PathId| #[trigger] path_key(p) == path_key(path@.parts) implies p == path@.parts by {
                lemma_key_injective(p, path@.parts);
            }
            assert(self@ =~= old(self)@.insert(path@.parts, value));
        }
    }
}

} // verus!
