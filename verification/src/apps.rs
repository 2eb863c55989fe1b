use vstd::prelude::*;
use vstd::string::StrSliceExecFns;
use crate::order::{contains_string, insert_sorted, sorted_lex, str_eq};
use crate::text::{
    file_name_spec, file_stem_spec, last_char_index, lower_seq, lower_string, seq_contains_sub,
    seq_ends_with, str_contains, str_ends_with, strip_dots_str, strip_leading_dots, trim_spec,
    trim_str,
};

verus! {

/// Scans the installed applications; the filesystem walk itself lives with
/// the caller, which hands the raw listing lines to `collect_app_paths`.
pub struct AppScanner;

impl AppScanner {
    pub fn new() -> (s: AppScanner) {
        AppScanner
    }

    /// The display name of an application, from its path: the last path
    /// component, minus its extension.  Nothing for an empty component; a
    /// component whose only dot is its first character keeps its full name.
    pub fn get_app_display_name(&self, app_path: &str) -> (r: Option<String>)
        ensures
            r.deep_view() == file_stem_spec(app_path@),
    {
        let n = app_path.unicode_len();
        let start: usize = match last_char_index(app_path, '/') {
            Some(i) => i + 1,
            None => 0,
        };
        let name = app_path.substring_char(start, n);
        proof {
            assert(name@ =~= file_name_spec(app_path@));
        }
        if name.is_empty() {
            return None;
        }
        match last_char_index(name, '.') {
            None => Some(name.to_owned()),
            Some(d) => {
                if d == 0 {
                    Some(name.to_owned())
                } else {
                    let stem = name.substring_char(0, d);
                    proof {
                        assert(stem@ =~= name@.take(d as int));
                    }
                    Some(stem.to_owned())
                }
            },
        }
    }
}

/// Keeps the lines of an application listing that name application
/// bundles: each line is trimmed, and a non-empty line ending in `.app` is
/// kept.  The result is sorted and free of duplicates.
pub fn collect_app_paths(lines: &Vec<String>) -> (r: Vec<String>)
    ensures
        sorted_lex(r.deep_view()),
        r.deep_view().no_duplicates(),
        forall|x: Seq<char>|
            #[trigger] r.deep_view().contains(x) <==> exists|i: int|
                0 <= i < lines.deep_view().len() && trim_spec(#[trigger] lines.deep_view()[i])
                    == x && x.len() > 0 && seq_ends_with(x, ".app"@),
{
    let n = lines.len();
    let mut r: Vec<String> = Vec::new();
    let mut i: usize = 0;
    proof {
        assert(r.deep_view() =~= Seq::<Seq<char>>::empty());
    }
    while i < n
        invariant
            n == lines@.len(),
            n == lines.deep_view().len(),
            0 <= i <= n,
            sorted_lex(r.deep_view()),
            r.deep_view().no_duplicates(),
            forall|x: Seq<char>|
                #[trigger] r.deep_view().contains(x) <==> exists|j: int|
                    0 <= j < i && trim_spec(#[trigger] lines.deep_view()[j]) == x && x.len() > 0
                        && seq_ends_with(x, ".app"@),
        decreases n - i,
    {
        proof {
            assert(lines.deep_view()[i as int] == lines@[i as int]@);
        }
        let t = trim_str(lines[i].as_str());
        if !t.is_empty() && str_ends_with(t, ".app") {
            insert_sorted(&mut r, t);
        }
        i += 1;
    }
    r
}

/// Reads the document-type listings of an application's property list;
/// the commands that produce the listing text live with the caller, which
/// hands the raw lines to `extract_extensions`.
pub struct PlistParser;

impl PlistParser {
    pub fn new() -> (p: PlistParser) {
        PlistParser
    }

    /// The extension names found in document-type listing lines: each line
    /// is trimmed, and structure lines — empty ones and those with
    /// `Array {`, `}` or `Dict` — are passed over.  The result is sorted
    /// and free of duplicates.
    pub fn extract_extensions(&self, lines: &Vec<String>) -> (r: Vec<String>)
        ensures
            sorted_lex(r.deep_view()),
            r.deep_view().no_duplicates(),
            forall|x: Seq<char>|
                #[trigger] r.deep_view().contains(x) <==> exists|i: int|
                    0 <= i < lines.deep_view().len() && trim_spec(
                        #[trigger] lines.deep_view()[i]) == x && x.len() > 0
                        && !seq_contains_sub(x, "Array {"@) && !seq_contains_sub(x, "}"@)
                        && !seq_contains_sub(x, "Dict"@),
    {
        let n = lines.len();
        let mut r: Vec<String> = Vec::new();
        let mut i: usize = 0;
        proof {
            assert(r.deep_view() =~= Seq::<Seq<char>>::empty());
        }
        while i < n
            invariant
                n == lines@.len(),
                n == lines.deep_view().len(),
                0 <= i <= n,
                sorted_lex(r.deep_view()),
                r.deep_view().no_duplicates(),
                forall|x: Seq<char>|
                    #[trigger] r.deep_view().contains(x) <==> exists|j: int|
                        0 <= j < i && trim_spec(#[trigger] lines.deep_view()[j]) == x && x.len()
                            > 0 && !seq_contains_sub(x, "Array {"@) && !seq_contains_sub(
                            x,
                            "}"@,
                        ) && !seq_contains_sub(x, "Dict"@),
            decreases n - i,
        {
            proof {
                assert(lines.deep_view()[i as int] == lines@[i as int]@);
            }
            let t = trim_str(lines[i].as_str());
            if !t.is_empty() && !str_contains(t, "Array {") && !str_contains(t, "}")
                && !str_contains(t, "Dict") {
                insert_sorted(&mut r, t);
            }
            i += 1;
        }
        r
    }

    /// Accepts a name printed by a property-list lookup: the text is
    /// trimmed, and kept when it is non-empty and is not the lookup's
    /// does-not-exist notice.
    pub fn accept_display_name(&self, output: &str) -> (r: Option<String>)
        ensures
            match r {
                Some(name) => name@ == trim_spec(output@) && name@.len() > 0
                    && !seq_contains_sub(name@, "Does Not Exist"@),
                None => trim_spec(output@).len() == 0 || seq_contains_sub(
                    trim_spec(output@),
                    "Does Not Exist"@,
                ),
            },
    {
        let t = trim_str(output);
        if !t.is_empty() && !str_contains(t, "Does Not Exist") {
            Some(t.to_owned())
        } else {
            None
        }
    }
}

/// The applications of a scanned extension table that support the given
/// extension.  A leading-dot form of the extension matches its bare form,
/// as the table stores extensions without dots.  The result is sorted.
pub fn find_apps_for_extension(app_extensions: &Vec<(String, Vec<String>)>, extension: &str) -> (r:
    Vec<String>)
    ensures
        sorted_lex(r.deep_view()),
        r.deep_view().no_duplicates(),
        forall|x: Seq<char>|
            #[trigger] r.deep_view().contains(x) <==> exists|i: int|
                0 <= i < app_extensions.deep_view().len() && (
                #[trigger] app_extensions.deep_view()[i]).0 == x && (
                app_extensions.deep_view()[i]).1.contains(
                    strip_leading_dots(extension@),
                ),
{
    let clean = strip_dots_str(extension);
    let n = app_extensions.len();
    let mut r: Vec<String> = Vec::new();
    let mut i: usize = 0;
    proof {
        assert(r.deep_view() =~= Seq::<Seq<char>>::empty());
    }
    while i < n
        invariant
            n == app_extensions@.len(),
            n == app_extensions.deep_view().len(),
            clean@ == strip_leading_dots(extension@),
            0 <= i <= n,
            sorted_lex(r.deep_view()),
            r.deep_view().no_duplicates(),
            forall|x: Seq<char>|
                #[trigger] r.deep_view().contains(x) <==> exists|j: int|
                    0 <= j < i && (#[trigger] app_extensions.deep_view()[j]).0 == x && (
                    app_extensions.deep_view()[j]).1.contains(strip_leading_dots(extension@)),
        decreases n - i,
    {
        proof {
            assert(app_extensions.deep_view()[i as int] == (
                app_extensions@[i as int].0@,
                app_extensions@[i as int].1.deep_view(),
            ));
        }
        if contains_string(&app_extensions[i].1, clean) {
            insert_sorted(&mut r, app_extensions[i].0.as_str());
        }
        i += 1;
    }
    r
}

/// The built-in extension-to-identifier table, consulted when the
/// platform's own detection yields nothing.
pub open spec fn hardcoded_uti_spec(ext: Seq<char>) -> Option<Seq<char>> {
    if ext == "txt"@ || ext == "md"@ || ext == "log"@ {
        Option::Some("public.plain-text"@)
    } else if ext == "pdf"@ {
        Option::Some("com.adobe.pdf"@)
    } else if ext == "jpg"@ || ext == "jpeg"@ {
        Option::Some("public.jpeg"@)
    } else if ext == "png"@ {
        Option::Some("public.png"@)
    } else if ext == "gif"@ {
        Option::Some("com.compuserve.gif"@)
    } else if ext == "bmp"@ {
        Option::Some("com.microsoft.bmp"@)
    } else if ext == "doc"@ {
        Option::Some("com.microsoft.word.doc"@)
    } else if ext == "docx"@ {
        Option::Some("org.openxmlformats.wordprocessingml.document"@)
    } else if ext == "xls"@ {
        Option::Some("com.microsoft.excel.xls"@)
    } else if ext == "xlsx"@ {
        Option::Some("org.openxmlformats.spreadsheetml.sheet"@)
    } else if ext == "ppt"@ {
        Option::Some("com.microsoft.powerpoint.ppt"@)
    } else if ext == "pptx"@ {
        Option::Some("org.openxmlformats.presentationml.presentation"@)
    } else if ext == "zip"@ {
        Option::Some("public.zip-archive"@)
    } else if ext == "tar"@ {
        Option::Some("public.tar-archive"@)
    } else if ext == "gz"@ {
        Option::Some("org.gnu.gnu-zip-archive"@)
    } else if ext == "mp3"@ {
        Option::Some("public.mp3"@)
    } else if ext == "mp4"@ {
        Option::Some("public.mpeg-4"@)
    } else if ext == "avi"@ {
        Option::Some("public.avi"@)
    } else if ext == "mov"@ {
        Option::Some("com.apple.quicktime-movie"@)
    } else {
        Option::None
    }
}

/// The content-type identifier of the built-in table for an extension,
/// compared without regard to ASCII case; nothing for an extension the
/// table does not know.
pub fn get_hardcoded_uti(extension: &str) -> (r: Option<String>)
    ensures
        r.deep_view() == hardcoded_uti_spec(lower_seq(extension@)),
{
    let low = lower_string(extension);
    if str_eq(low.as_str(), "txt") || str_eq(low.as_str(), "md") || str_eq(low.as_str(), "log") {
        Some("public.plain-text".to_owned())
    } else if str_eq(low.as_str(), "pdf") {
        Some("com.adobe.pdf".to_owned())
    } else if str_eq(low.as_str(), "jpg") || str_eq(low.as_str(), "jpeg") {
        Some("public.jpeg".to_owned())
    } else if str_eq(low.as_str(), "png") {
        Some("public.png".to_owned())
    } else if str_eq(low.as_str(), "gif") {
        Some("com.compuserve.gif".to_owned())
    } else if str_eq(low.as_str(), "bmp") {
        Some("com.microsoft.bmp".to_owned())
    } else if str_eq(low.as_str(), "doc") {
        Some("com.microsoft.word.doc".to_owned())
    } else if str_eq(low.as_str(), "docx") {
        Some("org.openxmlformats.wordprocessingml.document".to_owned())
    } else if str_eq(low.as_str(), "xls") {
        Some("com.microsoft.excel.xls".to_owned())
    } else if str_eq(low.as_str(), "xlsx") {
        Some("org.openxmlformats.spreadsheetml.sheet".to_owned())
    } else if str_eq(low.as_str(), "ppt") {
        Some("com.microsoft.powerpoint.ppt".to_owned())
    } else if str_eq(low.as_str(), "pptx") {
        Some("org.openxmlformats.presentationml.presentation".to_owned())
    } else if str_eq(low.as_str(), "zip") {
        Some("public.zip-archive".to_owned())
    } else if str_eq(low.as_str(), "tar") {
        Some("public.tar-archive".to_owned())
    } else if str_eq(low.as_str(), "gz") {
        Some("org.gnu.gnu-zip-archive".to_owned())
    } else if str_eq(low.as_str(), "mp3") {
        Some("public.mp3".to_owned())
    } else if str_eq(low.as_str(), "mp4") {
        Some("public.mpeg-4".to_owned())
    } else if str_eq(low.as_str(), "avi") {
        Some("public.avi".to_owned())
    } else if str_eq(low.as_str(), "mov") {
        Some("com.apple.quicktime-movie".to_owned())
    } else {
        None
    }
}

/// The display category of a file extension, compared without regard to
/// ASCII case.
pub open spec fn extension_category_spec(ext: Seq<char>) -> Seq<char> {
    if ext == "py"@ || ext == "js"@ || ext == "ts"@ || ext == "jsx"@ || ext == "tsx"@ || ext == "rs"@ || ext == "cpp"@ || ext == "c"@ || ext == "h"@ || ext == "java"@ || ext == "kt"@ || ext == "swift"@ || ext == "go"@ || ext == "php"@ || ext == "rb"@ || ext == "pl"@ || ext == "sh"@ {
        "Programming Languages"@
    } else if ext == "html"@ || ext == "css"@ || ext == "scss"@ || ext == "sass"@ || ext == "less"@ || ext == "xml"@ || ext == "json"@ || ext == "yaml"@ || ext == "toml"@ {
        "Web/Markup Languages"@
    } else if ext == "txt"@ || ext == "md"@ || ext == "log"@ || ext == "rtf"@ {
        "Text Documents"@
    } else if ext == "pdf"@ || ext == "doc"@ || ext == "docx"@ || ext == "xls"@ || ext == "xlsx"@ || ext == "ppt"@ || ext == "pptx"@ {
        "Office Documents"@
    } else if ext == "jpg"@ || ext == "jpeg"@ || ext == "png"@ || ext == "gif"@ || ext == "bmp"@ || ext == "svg"@ || ext == "ico"@ || ext == "tiff"@ || ext == "webp"@ {
        "Image Files"@
    } else if ext == "mp3"@ || ext == "mp4"@ || ext == "avi"@ || ext == "mov"@ || ext == "wmv"@ || ext == "flv"@ || ext == "mkv"@ || ext == "wav"@ || ext == "aac"@ || ext == "ogg"@ {
        "Audio/Video Files"@
    } else if ext == "zip"@ || ext == "rar"@ || ext == "7z"@ || ext == "tar"@ || ext == "gz"@ || ext == "bz2"@ {
        "Compressed Files"@
    } else if ext == "psd"@ || ext == "ai"@ || ext == "sketch"@ || ext == "fig"@ {
        "Design Files"@
    } else {
        "Other Files"@
    }
}

/// The display category a file extension is grouped under.
pub fn get_extension_category(extension: &str) -> (r: &'static str)
    ensures
        r@ == extension_category_spec(lower_seq(extension@)),
{
    let low = lower_string(extension);
    if str_eq(low.as_str(), "py") || str_eq(low.as_str(), "js") || str_eq(low.as_str(), "ts") || str_eq(low.as_str(), "jsx") || str_eq(low.as_str(), "tsx") || str_eq(low.as_str(), "rs") || str_eq(low.as_str(), "cpp") || str_eq(low.as_str(), "c") || str_eq(low.as_str(), "h") || str_eq(low.as_str(), "java") || str_eq(low.as_str(), "kt") || str_eq(low.as_str(), "swift") || str_eq(low.as_str(), "go") || str_eq(low.as_str(), "php") || str_eq(low.as_str(), "rb") || str_eq(low.as_str(), "pl") || str_eq(low.as_str(), "sh") {
        "Programming Languages"
    } else if str_eq(low.as_str(), "html") || str_eq(low.as_str(), "css") || str_eq(low.as_str(), "scss") || str_eq(low.as_str(), "sass") || str_eq(low.as_str(), "less") || str_eq(low.as_str(), "xml") || str_eq(low.as_str(), "json") || str_eq(low.as_str(), "yaml") || str_eq(low.as_str(), "toml") {
        "Web/Markup Languages"
    } else if str_eq(low.as_str(), "txt") || str_eq(low.as_str(), "md") || str_eq(low.as_str(), "log") || str_eq(low.as_str(), "rtf") {
        "Text Documents"
    } else if str_eq(low.as_str(), "pdf") || str_eq(low.as_str(), "doc") || str_eq(low.as_str(), "docx") || str_eq(low.as_str(), "xls") || str_eq(low.as_str(), "xlsx") || str_eq(low.as_str(), "ppt") || str_eq(low.as_str(), "pptx") {
        "Office Documents"
    } else if str_eq(low.as_str(), "jpg") || str_eq(low.as_str(), "jpeg") || str_eq(low.as_str(), "png") || str_eq(low.as_str(), "gif") || str_eq(low.as_str(), "bmp") || str_eq(low.as_str(), "svg") || str_eq(low.as_str(), "ico") || str_eq(low.as_str(), "tiff") || str_eq(low.as_str(), "webp") {
        "Image Files"
    } else if str_eq(low.as_str(), "mp3") || str_eq(low.as_str(), "mp4") || str_eq(low.as_str(), "avi") || str_eq(low.as_str(), "mov") || str_eq(low.as_str(), "wmv") || str_eq(low.as_str(), "flv") || str_eq(low.as_str(), "mkv") || str_eq(low.as_str(), "wav") || str_eq(low.as_str(), "aac") || str_eq(low.as_str(), "ogg") {
        "Audio/Video Files"
    } else if str_eq(low.as_str(), "zip") || str_eq(low.as_str(), "rar") || str_eq(low.as_str(), "7z") || str_eq(low.as_str(), "tar") || str_eq(low.as_str(), "gz") || str_eq(low.as_str(), "bz2") {
        "Compressed Files"
    } else if str_eq(low.as_str(), "psd") || str_eq(low.as_str(), "ai") || str_eq(low.as_str(), "sketch") || str_eq(low.as_str(), "fig") {
        "Design Files"
    } else {
        "Other Files"
    }
}

/// Whether an application entry matches a search term loosely: the term
/// occurs in the application's name or in one of its extensions, compared
/// without regard to ASCII case.
pub open spec fn fuzzy_match_spec(
    name: Seq<char>,
    exts: Seq<Seq<char>>,
    term: Seq<char>,
) -> bool {
    seq_contains_sub(lower_seq(name), lower_seq(term)) || exists|k: int|
        0 <= k < exts.len() && seq_contains_sub(lower_seq(#[trigger] exts[k]), lower_seq(term))
}

/// Whether one entry of the table matches the term loosely.
fn entry_matches(name: &String, exts: &Vec<String>, term: &String) -> (r: bool)
    ensures
        r == fuzzy_match_spec(name@, exts.deep_view(), term@),
{
    let low_term = lower_string(term.as_str());
    let low_name = lower_string(name.as_str());
    if str_contains(low_name.as_str(), low_term.as_str()) {
        return true;
    }
    let n = exts.len();
    let mut i: usize = 0;
    while i < n
        invariant
            n == exts@.len(),
            n == exts.deep_view().len(),
            low_term@ == lower_seq(term@),
            0 <= i <= n,
            forall|k: int|
                0 <= k < i ==> !seq_contains_sub(
                    lower_seq(#[trigger] exts.deep_view()[k]),
                    lower_seq(term@),
                ),
        decreases n - i,
    {
        proof {
            assert(exts.deep_view()[i as int] == exts@[i as int]@);
        }
        let low_ext = lower_string(exts[i].as_str());
        if str_contains(low_ext.as_str(), low_term.as_str()) {
            return true;
        }
        i += 1;
    }
    false
}

/// The entries of a scanned extension table that match a search term
/// loosely, ordered by application name.  The table's names must be
/// pairwise distinct, as the names of a scanned application map are.
pub fn find_fuzzy_matches(app_extensions: &Vec<(String, Vec<String>)>, search_term: &String) -> (r:
    Vec<(String, Vec<String>)>)
    requires
        forall|i: int, j: int|
            0 <= i < j < app_extensions.deep_view().len() ==> (
            #[trigger] app_extensions.deep_view()[i]).0 != (
            #[trigger] app_extensions.deep_view()[j]).0,
    ensures
        sorted_lex(r.deep_view().map_values(|p: (Seq<char>, Seq<Seq<char>>)| p.0)),
        forall|p: (Seq<char>, Seq<Seq<char>>)|
            #[trigger] r.deep_view().contains(p) <==> (app_extensions.deep_view().contains(p)
                && fuzzy_match_spec(p.0, p.1, search_term@)),
{
    let ghost tdv = app_extensions.deep_view();
    let n = app_extensions.len();
    let mut r: Vec<(String, Vec<String>)> = Vec::new();
    let mut i: usize = 0;
    proof {
        assert(r.deep_view() =~= Seq::<(Seq<char>, Seq<Seq<char>>)>::empty());
        assert(r.deep_view().map_values(|p: (Seq<char>, Seq<Seq<char>>)| p.0) =~= Seq::<
            Seq<char>,
        >::empty());
    }
    while i < n
        invariant
            n == app_extensions@.len(),
            n == tdv.len(),
            tdv == app_extensions.deep_view(),
            forall|p: int, q: int|
                0 <= p < q < n ==> (#[trigger] tdv[p]).0 != (#[trigger] tdv[q]).0,
            0 <= i <= n,
            sorted_lex(r.deep_view().map_values(|p: (Seq<char>, Seq<Seq<char>>)| p.0)),
            forall|p: (Seq<char>, Seq<Seq<char>>)|
                #[trigger] r.deep_view().contains(p) <==> (exists|k: int|
                    0 <= k < i && tdv[k] == p) && fuzzy_match_spec(p.0, p.1, search_term@),
        decreases n - i,
    {
        proof {
            assert(tdv[i as int] == (
                app_extensions@[i as int].0@,
                app_extensions@[i as int].1.deep_view(),
            ));
        }
        if entry_matches(&app_extensions[i].0, &app_extensions[i].1, search_term) {
            let name = app_extensions[i].0.clone();
            let exts = crate::order::clone_strings(&app_extensions[i].1);
            let pos = sorted_insert_position(&r, name.as_str());
            let ghost r0dv = r.deep_view();
            r.insert(pos, (name, exts));
            proof {
                assert(r.deep_view() =~= r0dv.insert(pos as int, tdv[i as int]));
                lemma_pair_insert(r0dv, pos as int, tdv[i as int]);
            }
        }
        i += 1;
    }
    proof {
        assert forall|p: (Seq<char>, Seq<Seq<char>>)|
            #[trigger] r.deep_view().contains(p) <==> (tdv.contains(p) && fuzzy_match_spec(
                p.0,
                p.1,
                search_term@,
            )) by {}
    }
    r
}

/// The position at which a name belongs in a list of pairs sorted by name.
fn sorted_insert_position(r: &Vec<(String, Vec<String>)>, name: &str) -> (pos: usize)
    requires
        sorted_lex(r.deep_view().map_values(|p: (Seq<char>, Seq<Seq<char>>)| p.0)),
    ensures
        pos <= r.deep_view().len(),
        forall|j: int|
            0 <= j < pos ==> crate::order::lex_le((#[trigger] r.deep_view()[j]).0, name@),
        forall|j: int|
            pos <= j < r.deep_view().len() ==> crate::order::lex_le(
                name@,
                (#[trigger] r.deep_view()[j]).0,
            ),
{
    let n = r.len();
    let mut i: usize = 0;
    while i < n
        invariant
            n == r@.len(),
            n == r.deep_view().len(),
            sorted_lex(r.deep_view().map_values(|p: (Seq<char>, Seq<Seq<char>>)| p.0)),
            0 <= i <= n,
            forall|j: int|
                0 <= j < i ==> crate::order::lex_le((#[trigger] r.deep_view()[j]).0, name@)
                    && (r.deep_view()[j]).0 != name@,
        decreases n - i,
    {
        proof {
            assert(r.deep_view()[i as int] == (r@[i as int].0@, r@[i as int].1.deep_view()));
        }
        if crate::order::str_le(name, r[i].0.as_str()) {
            proof {
                crate::order::lemma_lex_total((r.deep_view()[i as int]).0, name@);
                let m = r.deep_view().map_values(|p: (Seq<char>, Seq<Seq<char>>)| p.0);
                assert forall|j: int|
                    i <= j < r.deep_view().len() implies crate::order::lex_le(
                    name@,
                    (#[trigger] r.deep_view()[j]).0,
                ) by {
                    assert(m[i as int] == (r.deep_view()[i as int]).0);
                    assert(m[j] == (r.deep_view()[j]).0);
                    if j > i {
                        crate::order::lemma_lex_trans(name@, m[i as int], m[j]);
                    }
                }
            }
            return i;
        }
        proof {
            crate::order::lemma_lex_total((r.deep_view()[i as int]).0, name@);
            if (r.deep_view()[i as int]).0 == name@ {
                crate::order::lemma_lex_refl(name@);
            }
        }
        i += 1;
    }
    n
}

/// Inserting a pair whose name sits between its neighbours keeps the name
/// column sorted, and membership grows by exactly the pair.
proof fn lemma_pair_insert(
    r0: Seq<(Seq<char>, Seq<Seq<char>>)>,
    pos: int,
    x: (Seq<char>, Seq<Seq<char>>),
)
    requires
        0 <= pos <= r0.len(),
        sorted_lex(r0.map_values(|p: (Seq<char>, Seq<Seq<char>>)| p.0)),
        forall|j: int| 0 <= j < pos ==> crate::order::lex_le((#[trigger] r0[j]).0, x.0),
        forall|j: int| pos <= j < r0.len() ==> crate::order::lex_le(x.0, (#[trigger] r0[j]).0),
    ensures
        sorted_lex(r0.insert(pos, x).map_values(|p: (Seq<char>, Seq<Seq<char>>)| p.0)),
        forall|p: (Seq<char>, Seq<Seq<char>>)|
            #[trigger] r0.insert(pos, x).contains(p) <==> (r0.contains(p) || p == x),
{
    let r1 = r0.insert(pos, x);
    let m0 = r0.map_values(|p: (Seq<char>, Seq<Seq<char>>)| p.0);
    let m1 = r1.map_values(|p: (Seq<char>, Seq<Seq<char>>)| p.0);
    assert forall|p: int, q: int| 0 <= p < q < m1.len() implies crate::order::lex_le(
        #[trigger] m1[p],
        #[trigger] m1[q],
    ) by {
        let p0: int = if p < pos { p } else { p - 1 };
        let q0: int = if q <= pos { q } else { q - 1 };
        assert(m1[p] == (r1[p]).0);
        assert(m1[q] == (r1[q]).0);
        if p == pos {
            assert(r1[q] == r0[q - 1]);
        } else if q == pos {
            assert(r1[p] == r0[p]);
        } else {
            assert(r1[p] == r0[p0]);
            assert(r1[q] == r0[q0]);
            assert(m0[p0] == (r0[p0]).0);
            assert(m0[q0] == (r0[q0]).0);
            if p0 == q0 {
                crate::order::lemma_lex_refl((r0[p0]).0);
            }
        }
    }
    assert forall|p: (Seq<char>, Seq<Seq<char>>)| #[trigger] r1.contains(p) implies (
    r0.contains(p) || p == x) by {
        let j = choose|j: int| 0 <= j < r1.len() && r1[j] == p;
        if j < pos {
            assert(r0[j] == p);
        } else if j > pos {
            assert(r0[j - 1] == p);
        }
    }
    assert forall|p: (Seq<char>, Seq<Seq<char>>)| r0.contains(p) || p == x implies #[trigger] r1.contains(
        p,
    ) by {
        if p == x {
            assert(r1[pos] == p);
        } else {
            let j = choose|j: int| 0 <= j < r0.len() && r0[j] == p;
            if j < pos {
                assert(r1[j] == p);
            } else {
                assert(r1[j + 1] == p);
            }
        }
    }
}

} // verus!
