//! Which files and directories a scan looks at: file type categories and the
//! names that are left out by default.

use vstd::prelude::*;

use crate::order::{sort_texts, sorted_texts};
use crate::paths::{extension_of_name, lossy, lossy_text, name_extension, name_of, FilePath, PathId};
use crate::text::{chars_of, concat2, join, joined, list_contains, lowercase, same_text, text_of, to_lower};

verus! {

/// The category of every file that no other category claims.
pub const MISC_FILE_TYPE: &'static str = "misc";

/// Files of this size or more are not confirmed during a scan.
pub const LARGE_FILE_THRESHOLD: u64 = 524288000;

/// A category: its name and the extensions that belong to it.
pub struct CategoryV {
    pub name: Seq<char>,
    pub extensions: Seq<Seq<char>>,
}

/// A category of file types, such as images, with its extensions.
#[derive(Debug)]
pub struct Category {
    pub name: &'static str,
    pub extensions: Vec<&'static str>,
}

impl View for Category {
    type V = CategoryV;

    open spec fn view(&self) -> CategoryV {
        CategoryV { name: self.name@, extensions: self.extensions.deep_view() }
    }
}

impl DeepView for Category {
    type V = CategoryV;

    open spec fn deep_view(&self) -> CategoryV {
        self@
    }
}

/// The categories, in the order in which they are offered.
pub open spec fn categories() -> Seq<CategoryV> {
    seq![
        CategoryV {
            name: "images"@,
            extensions: seq![
                ".jpg"@, ".jpeg"@, ".png"@, ".gif"@, ".bmp"@, ".tiff"@, ".tif"@, ".webp"@, ".heic"@, ".heif"@,
                ".svg"@, ".ico"@, ".raw"@, ".cr2"@, ".nef"@, ".arw"@, ".dng"@
            ],
        },
        CategoryV {
            name: "audio"@,
            extensions: seq![
                ".mp3"@, ".wav"@, ".flac"@, ".aac"@, ".ogg"@, ".m4a"@, ".wma"@, ".aiff"@, ".alac"@, ".opus"@
            ],
        },
        CategoryV {
            name: "video"@,
            extensions: seq![
                ".mp4"@, ".mov"@, ".avi"@, ".mkv"@, ".wmv"@, ".flv"@, ".webm"@, ".m4v"@, ".mpg"@, ".mpeg"@, ".3gp"@
            ],
        },
        CategoryV {
            name: "documents"@,
            extensions: seq![
                ".pdf"@, ".doc"@, ".docx"@, ".xls"@, ".xlsx"@, ".ppt"@, ".pptx"@, ".txt"@, ".rtf"@, ".odt"@,
                ".ods"@, ".odp"@, ".md"@, ".csv"@, ".pages"@, ".key"@, ".numbers"@
            ],
        },
        CategoryV {
            name: "archives"@,
            extensions: seq![
                ".zip"@, ".rar"@, ".7z"@, ".tar"@, ".gz"@, ".bz2"@, ".xz"@, ".tgz"@, ".tbz2"@
            ],
        },
        CategoryV {
            name: "programs"@,
            extensions: seq![
                ".exe"@, ".msi"@, ".dmg"@, ".pkg"@, ".apk"@, ".deb"@, ".rpm"@, ".appimage"@, ".bat"@, ".sh"@,
                ".bin"@, ".jar"@
            ],
        },
    ]
}

/// All categories with their extensions.
pub fn file_type_categories() -> (r: Vec<Category>)
    ensures
        r.deep_view() == categories(),
{
    let images = Category {
        name: "images",
        extensions: vec![
            ".jpg", ".jpeg", ".png", ".gif", ".bmp", ".tiff", ".tif", ".webp", ".heic", ".heif", ".svg", ".ico",
            ".raw", ".cr2", ".nef", ".arw", ".dng",
        ],
    };
    assert(images@.extensions =~= categories()[0].extensions);
    let audio = Category {
        name: "audio",
        extensions: vec![
            ".mp3", ".wav", ".flac", ".aac", ".ogg", ".m4a", ".wma", ".aiff", ".alac", ".opus",
        ],
    };
    assert(audio@.extensions =~= categories()[1].extensions);
    let video = Category {
        name: "video",
        extensions: vec![
            ".mp4", ".mov", ".avi", ".mkv", ".wmv", ".flv", ".webm", ".m4v", ".mpg", ".mpeg", ".3gp",
        ],
    };
    assert(video@.extensions =~= categories()[2].extensions);
    let documents = Category {
        name: "documents",
        extensions: vec![
            ".pdf", ".doc", ".docx", ".xls", ".xlsx", ".ppt", ".pptx", ".txt", ".rtf", ".odt", ".ods", ".odp",
            ".md", ".csv", ".pages", ".key", ".numbers",
        ],
    };
    assert(documents@.extensions =~= categories()[3].extensions);
    let archives = Category {
        name: "archives",
        extensions: vec![".zip", ".rar", ".7z", ".tar", ".gz", ".bz2", ".xz", ".tgz", ".tbz2"],
    };
    assert(archives@.extensions =~= categories()[4].extensions);
    let programs = Category {
        name: "programs",
        extensions: vec![
            ".exe", ".msi", ".dmg", ".pkg", ".apk", ".deb", ".rpm", ".appimage", ".bat", ".sh", ".bin", ".jar",
        ],
    };
    assert(programs@.extensions =~= categories()[5].extensions);
    let r: Vec<Category> = vec![images, audio, video, documents, archives, programs];
    assert(r.deep_view() =~= categories());
    r
}

/// The names that a file type filter may hold.
pub open spec fn valid_types() -> Seq<Seq<char>> {
    categories().map_values(|c: CategoryV| c.name).push("misc"@)
}

pub fn valid_file_types() -> (r: Vec<&'static str>)
    ensures
        r.deep_view() == valid_types(),
{
    let cats = file_type_categories();
    let mut r: Vec<&'static str> = Vec::new();
    let mut i: usize = 0;
    while i < cats.len()
        invariant
            i <= cats@.len(),
            cats.deep_view() == categories(),
            r@.len() == i,
            forall|j: int| 0 <= j < i ==> (#[trigger] r@[j])@ == categories()[j].name,
        decreases cats@.len() - i,
    {
        assert(cats.deep_view()[i as int] == cats@[i as int]@);
        r.push(cats[i].name);
        i = i + 1;
    }
    r.push(MISC_FILE_TYPE);
    assert(r.deep_view() =~= valid_types());
    r
}

/// Whether a list of fixed names holds `s`.
pub fn names_contain(list: &Vec<&'static str>, s: &str) -> (r: bool)
    ensures
        r == list.deep_view().contains(s@),
{
    let mut i: usize = 0;
    while i < list.len()
        invariant
            i <= list@.len(),
            forall|j: int| 0 <= j < i ==> #[trigger] list.deep_view()[j] != s@,
        decreases list@.len() - i,
    {
        if same_text(list[i], s) {
            assert(list.deep_view()[i as int] == s@);
            return true;
        }
        assert(list.deep_view()[i as int] == list@[i as int]@);
        i = i + 1;
    }
    false
}

/// The names of a fixed list as owned texts.
pub fn owned_names(list: &Vec<&'static str>) -> (r: Vec<String>)
    ensures
        r.deep_view() == list.deep_view(),
{
    let mut r: Vec<String> = Vec::new();
    let mut i: usize = 0;
    while i < list.len()
        invariant
            i <= list@.len(),
            r@.len() == i,
            forall|j: int| 0 <= j < i ==> (#[trigger] r@[j])@ == list@[j]@,
        decreases list@.len() - i,
    {
        r.push(list[i].to_string());
        i = i + 1;
    }
    assert(r.deep_view() =~= list.deep_view());
    r
}

/// Whether a category with this extension is among `chosen`.
pub open spec fn in_chosen_category(chosen: Seq<Seq<char>>, ext: Seq<char>) -> bool {
    exists|i: int|
        0 <= i < categories().len() && chosen.contains(categories()[i].name) && #[trigger] categories()[i].extensions.contains(ext)
}

/// Whether any category has this extension.
pub open spec fn is_categorized(ext: Seq<char>) -> bool {
    exists|i: int| 0 <= i < categories().len() && #[trigger] categories()[i].extensions.contains(ext)
}

/// Whether files with this extension belong to the chosen categories: to one
/// of them by name, or to `misc` when no category has the extension.
pub open spec fn extension_accepted(chosen: Seq<Seq<char>>, ext: Seq<char>) -> bool {
    in_chosen_category(chosen, ext) || (chosen.contains("misc"@) && !is_categorized(ext))
}

/// Decides whether an extension belongs to the chosen categories.
pub fn extension_matches(ext: &str, chosen: &Vec<String>) -> (r: bool)
    ensures
        r == extension_accepted(chosen.deep_view(), ext@),
{
    let cats = file_type_categories();
    let mut known = false;
    let mut i: usize = 0;
    while i < cats.len()
        invariant
            i <= cats@.len(),
            cats.deep_view() == categories(),
            known == exists|j: int| 0 <= j < i && #[trigger] categories()[j].extensions.contains(ext@),
            forall|j: int|
                0 <= j < i && #[trigger] categories()[j].extensions.contains(ext@) ==> !chosen.deep_view().contains(
                    categories()[j].name,
                ),
        decreases cats@.len() - i,
    {
        assert(cats.deep_view()[i as int] == cats@[i as int]@);
        let ghost known_before = known;
        if names_contain(&cats[i].extensions, ext) {
            assert(categories()[i as int].extensions.contains(ext@));
            known = true;
            if list_contains(chosen, cats[i].name) {
                return true;
            }
        }
        i = i + 1;
    }
    !known && list_contains(chosen, MISC_FILE_TYPE)
}

/// The extension of a path with its dot, in lower case; empty without one.
pub open spec fn path_extension(path: PathId) -> Seq<char> {
    match name_of(path) {
        Some(name) => match name_extension(name) {
            Some(e) => "."@ + lowercase(lossy(e)),
            None => Seq::empty(),
        },
        None => Seq::empty(),
    }
}

pub fn extension_of(path: &FilePath) -> (r: String)
    ensures
        r@ == path_extension(path@.parts),
{
    match path.file_name() {
        Some(name) => match extension_of_name(name.as_slice()) {
            Some(e) => concat2(".", to_lower(lossy_text(&e).as_str()).as_str()),
            None => String::new(),
        },
        None => String::new(),
    }
}

/// Whether the extension of `path` falls into any of the named categories:
/// the rule that the `file_types` filter of a scan applies.
pub fn file_matches_types(path: &FilePath, categories: &Vec<String>) -> (r: bool)
    ensures
        r == extension_accepted(categories.deep_view(), path_extension(path@.parts)),
{
    extension_matches(extension_of(path).as_str(), categories)
}

// -------------------------------------------------------------------- filter

/// A filter on extensions: only the chosen categories pass.
#[derive(Debug)]
pub struct ExtensionFilter {
    pub chosen: Vec<String>,
}

impl ExtensionFilter {
    /// Whether files with this extension pass.
    pub fn accepts(&self, ext: &str) -> (r: bool)
        ensures
            r == extension_accepted(self.chosen.deep_view(), ext@),
    {
        extension_matches(ext, &self.chosen)
    }
}

/// Category names that do not exist, in ascending order.
#[derive(Debug)]
pub struct UnknownTypes {
    pub names: Vec<String>,
}

/// The names of a list that are no categories, each once.
pub open spec fn unknown_names(list: Seq<Seq<char>>) -> Seq<Seq<char>>
    decreases list.len(),
{
    if list.len() == 0 {
        Seq::empty()
    } else {
        let before = unknown_names(list.drop_last());
        if valid_types().contains(list.last()) || before.contains(list.last()) {
            before
        } else {
            before.push(list.last())
        }
    }
}

/// What is said about unknown names.
pub open spec fn unknown_message(names: Seq<Seq<char>>) -> Seq<char> {
    "Unknown file type categor"@ + (if names.len() == 1 {
        "y"@
    } else {
        "ies"@
    }) + ": "@ + joined(names, ", "@) + " -- valid categories: "@ + joined(sorted_texts(valid_types()), ", "@)
}

/// The valid categories in ascending order, separated by commas.
pub fn valid_types_text() -> (r: String)
    ensures
        r@ == joined(sorted_texts(valid_types()), ", "@),
{
    join(&sort_texts(&owned_names(&valid_file_types())), ", ")
}

impl UnknownTypes {
    pub fn message(&self) -> (r: String)
        ensures
            r@ == unknown_message(self.names.deep_view()),
    {
        let mut r = "Unknown file type categor".to_string();
        if self.names.len() == 1 {
            r.append("y");
        } else {
            r.append("ies");
        }
        r.append(": ");
        r.append(join(&self.names, ", ").as_str());
        r.append(" -- valid categories: ");
        r.append(valid_types_text().as_str());
        r
    }
}

/// Builds the filter that a choice of categories asks for. No choice, no
/// filter; a name that is no category is an error.
pub fn build_extension_filter(file_types: Option<&Vec<String>>) -> (r: Result<Option<ExtensionFilter>, UnknownTypes>)
    ensures
        match file_types {
            None => r matches Ok(None),
            Some(list) => {
                let unknown = unknown_names(list.deep_view());
                if unknown.len() > 0 {
                    r matches Err(e) && e.names.deep_view() == sorted_texts(unknown)
                } else {
                    r matches Ok(Some(f)) && f.chosen.deep_view() == list.deep_view()
                }
            },
        },
{
    let list = match file_types {
        None => return Ok(None),
        Some(list) => list,
    };
    let valid = valid_file_types();
    let mut unknown: Vec<String> = Vec::new();
    let mut i: usize = 0;
    assert(list.deep_view().take(0) =~= Seq::<Seq<char>>::empty());
    assert(unknown.deep_view() =~= Seq::<Seq<char>>::empty());
    while i < list.len()
        invariant
            i <= list@.len(),
            valid.deep_view() == valid_types(),
            unknown.deep_view() == unknown_names(list.deep_view().take(i as int)),
        decreases list@.len() - i,
    {
        let ghost upto = list.deep_view().take(i + 1);
        assert(upto.drop_last() =~= list.deep_view().take(i as int));
        assert(upto.last() == list@[i as int]@);
        if !names_contain(&valid, list[i].as_str()) && !list_contains(&unknown, list[i].as_str()) {
            let ghost before = unknown.deep_view();
            unknown.push(list[i].clone());
            assert(unknown.deep_view() =~= before.push(list@[i as int]@));
        }
        i = i + 1;
    }
    assert(list.deep_view().take(i as int) =~= list.deep_view());
    if unknown.len() > 0 {
        assert(unknown.deep_view().len() > 0);
        return Err(UnknownTypes { names: sort_texts(&unknown) });
    }
    assert(unknown.deep_view().len() == 0);
    Ok(Some(ExtensionFilter { chosen: crate::text::copy_texts(list) }))
}

/// With every category chosen, `misc` among them, every extension passes.
pub proof fn law_all_types_accept_everything(ext: Seq<char>)
    ensures
        extension_accepted(valid_types(), ext),
{
    let v = valid_types();
    assert(v[v.len() - 1] == "misc"@);
    if is_categorized(ext) {
        let i = choose|i: int| 0 <= i < categories().len() && #[trigger] categories()[i].extensions.contains(ext);
        assert(v[i] == categories()[i].name);
        assert(v.contains(categories()[i].name));
    }
}

// -------------------------------------------------------------- default names

/// Directories that a scan does not enter by default.
pub open spec fn default_dir_names() -> Seq<Seq<char>> {
    seq![
        "node_modules"@, "venv"@, ".venv"@, "env"@, ".env"@, "virtualenv"@, ".virtualenv"@, "__pycache__"@,
        ".pytest_cache"@, ".mypy_cache"@, ".ruff_cache"@, ".tox"@, ".cache"@
    ]
}

pub fn default_excluded_dir_names() -> (r: Vec<String>)
    ensures
        r.deep_view() == default_dir_names(),
{
    let names: Vec<&'static str> = vec![
        "node_modules", "venv", ".venv", "env", ".env", "virtualenv", ".virtualenv", "__pycache__",
        ".pytest_cache", ".mypy_cache", ".ruff_cache", ".tox", ".cache",
    ];
    assert(names.deep_view() =~= default_dir_names());
    owned_names(&names)
}

pub open spec fn default_file_names() -> Seq<Seq<char>> {
    seq![".ds_store"@, ".localized"@, "thumbs.db"@, "desktop.ini"@, ".gitkeep"@]
}

pub open spec fn default_file_extensions() -> Seq<Seq<char>> {
    seq![".tmp"@, ".temp"@, ".swp"@, ".swo"@, ".bak"@]
}

/// The position of the last dot of a name, or -1.
pub open spec fn dot_position(name: Seq<char>) -> int
    decreases name.len(),
{
    if name.len() == 0 {
        -1
    } else if name.last() == '.' {
        name.len() - 1
    } else {
        dot_position(name.drop_last())
    }
}

/// The extension of a file name, with its dot: the text from its last dot on,
/// unless that dot begins the name. Empty without one, and for `..`.
pub open spec fn dotted_extension(name: Seq<char>) -> Seq<char> {
    if dot_position(name) <= 0 || name == seq!['.', '.'] {
        Seq::empty()
    } else {
        name.skip(dot_position(name))
    }
}

/// Whether a file name in lower case is that of a temporary, backup or system
/// file.
pub open spec fn is_temp_lowered(lowered: Seq<char>) -> bool {
    ||| default_file_names().contains(lowered)
    ||| lowered.len() > 0 && lowered.last() == '~'
    ||| default_file_extensions().contains(dotted_extension(lowered))
}

/// Whether a file name is that of a temporary, backup or system file.
pub open spec fn is_temp_name(name: Seq<char>) -> bool {
    is_temp_lowered(lowercase(name))
}

fn extension_text(chars: &Vec<char>) -> (r: String)
    ensures
        r@ == dotted_extension(chars@),
{
    let n: usize = chars.len();
    let mut i: usize = n;
    assert(chars@.take(n as int) =~= chars@);
    while i > 0 && chars[i - 1] != '.'
        invariant
            i <= n,
            n == chars@.len(),
            dot_position(chars@) == dot_position(chars@.take(i as int)),
        decreases i,
    {
        assert(chars@.take(i as int).drop_last() =~= chars@.take(i - 1));
        i = i - 1;
    }
    assert(dot_position(chars@) == i - 1);
    if i <= 1 || (n == 2 && chars[0] == '.') {
        assert(i > 1 ==> chars@ =~= seq!['.', '.']);
        let none = String::new();
        assert(none@ =~= Seq::<char>::empty());
        return none;
    }
    assert(chars@ != seq!['.', '.']) by {
        if chars@ == seq!['.', '.'] {
            assert(chars@.len() == 2 && chars@[0] == '.');
        }
    }
    let r = text_of(chars, i - 1, n);
    assert(r@ =~= chars@.skip(i - 1));
    r
}

/// Decides whether a scan leaves a file out by default, by its name in lower
/// case.
pub fn is_excluded_lowered(lowered: &str) -> (r: bool)
    ensures
        r == is_temp_lowered(lowered@),
{
    let names: Vec<&'static str> = vec![".ds_store", ".localized", "thumbs.db", "desktop.ini", ".gitkeep"];
    assert(names.deep_view() =~= default_file_names());
    if names_contain(&names, lowered) {
        return true;
    }
    let chars = chars_of(lowered);
    if chars.len() > 0 && chars[chars.len() - 1] == '~' {
        return true;
    }
    let extensions: Vec<&'static str> = vec![".tmp", ".temp", ".swp", ".swo", ".bak"];
    assert(extensions.deep_view() =~= default_file_extensions());
    names_contain(&extensions, extension_text(&chars).as_str())
}

/// Decides whether a scan leaves a file out by default. `name` is the name of
/// a directory entry and holds no separator.
pub fn is_default_excluded_file(name: &str) -> (r: bool)
    ensures
        r == is_temp_name(name@),
{
    is_excluded_lowered(to_lower(name).as_str())
}

// -------------------------------------------------------------------- options

/// How a scan goes about its work.
#[derive(Debug)]
pub struct ScanOptions {
    pub show_progress: bool,
    /// 0 means one per processor.
    pub workers: usize,
    /// 0 means that every candidate is confirmed during the scan.
    pub large_file_threshold: u64,
    /// Names of directories that are never entered.
    pub exclude_dirs: Vec<String>,
    pub exclude_temp_files: bool,
    pub file_types: Option<Vec<String>>,
}

pub struct OptionsV {
    pub show_progress: bool,
    pub workers: usize,
    pub large_file_threshold: u64,
    pub exclude_dirs: Seq<Seq<char>>,
    pub exclude_temp_files: bool,
    pub file_types: Option<Seq<Seq<char>>>,
}

impl View for ScanOptions {
    type V = OptionsV;

    open spec fn view(&self) -> OptionsV {
        OptionsV {
            show_progress: self.show_progress,
            workers: self.workers,
            large_file_threshold: self.large_file_threshold,
            exclude_dirs: self.exclude_dirs.deep_view(),
            exclude_temp_files: self.exclude_temp_files,
            file_types: self.file_types.deep_view(),
        }
    }
}

impl Default for ScanOptions {
    fn default() -> (r: ScanOptions)
        ensures
            r.show_progress,
            r.workers == 0,
            r.large_file_threshold == LARGE_FILE_THRESHOLD,
            r.exclude_dirs.deep_view() == default_dir_names(),
            r.exclude_temp_files,
            r.file_types is None,
    {
        ScanOptions {
            show_progress: true,
            workers: 0,
            large_file_threshold: LARGE_FILE_THRESHOLD,
            exclude_dirs: default_excluded_dir_names(),
            exclude_temp_files: true,
            file_types: None,
        }
    }
}

/// `num_cpus::get`: the number of processors, as the machine reports it. What
/// that number is depends on the machine.
#[verifier::external_body]
fn cpu_count() -> (n: usize) {
    num_cpus::get()
}

/// At least one worker.
pub fn at_least_one(n: usize) -> (r: usize)
    ensures
        r == (if n == 0 {
            1
        } else {
            n as int
        }),
{
    if n == 0 {
        1
    } else {
        n
    }
}

/// One worker per processor, and never none.
pub fn default_workers() -> (r: usize)
    ensures
        r >= 1,
{
    at_least_one(cpu_count())
}

/// How many workers a scan uses.
pub fn worker_count(opts: &ScanOptions) -> (r: usize)
    ensures
        opts.workers > 0 ==> r == opts.workers,
        r >= 1,
{
    if opts.workers > 0 {
        opts.workers
    } else {
        default_workers()
    }
}

/// The names of directories that a scan leaves out, in lower case.
pub open spec fn lowered(list: Seq<Seq<char>>) -> Seq<Seq<char>> {
    list.map_values(|s: Seq<char>| lowercase(s))
}

pub fn lower_all(list: &Vec<String>) -> (r: Vec<String>)
    ensures
        r.deep_view() == lowered(list.deep_view()),
{
    let mut r: Vec<String> = Vec::new();
    let mut i: usize = 0;
    while i < list.len()
        invariant
            i <= list@.len(),
            r@.len() == i,
            forall|j: int| 0 <= j < i ==> (#[trigger] r@[j])@ == lowercase(list@[j]@),
        decreases list@.len() - i,
    {
        r.push(to_lower(list[i].as_str()));
        i = i + 1;
    }
    assert(r.deep_view() =~= lowered(list.deep_view()));
    r
}

} // verus!
