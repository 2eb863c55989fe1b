use vstd::prelude::*;
use crate::order::str_eq;
use vstd::string::StringExecFns;

verus! {

/// The human-readable name of a content-type identifier; an identifier
/// outside the table is shown as itself.
pub open spec fn friendly_name_spec(uti: Seq<char>) -> Seq<char> {
    if uti == "public.mp4"@ {
        "MP4 Video"@
    } else if uti == "public.mpeg"@ {
        "MPEG Video"@
    } else if uti == "public.avi"@ {
        "AVI Video"@
    } else if uti == "public.mov"@ {
        "QuickTime Movie"@
    } else if uti == "com.apple.quicktime-movie"@ {
        "QuickTime Movie"@
    } else if uti == "public.mpeg-4"@ {
        "MPEG-4 Video"@
    } else if uti == "public.mp3"@ {
        "MP3 Audio"@
    } else if uti == "public.wav"@ {
        "WAV Audio"@
    } else if uti == "public.aiff"@ {
        "AIFF Audio"@
    } else if uti == "public.m4a"@ {
        "M4A Audio"@
    } else if uti == "com.apple.m4a-audio"@ {
        "M4A Audio"@
    } else if uti == "public.audio"@ {
        "Audio"@
    } else if uti == "public.jpeg"@ {
        "JPEG Image"@
    } else if uti == "public.png"@ {
        "PNG Image"@
    } else if uti == "public.gif"@ {
        "GIF Image"@
    } else if uti == "com.apple.pict"@ {
        "PICT Image"@
    } else if uti == "public.svg-image"@ {
        "SVG Image"@
    } else if uti == "public.tiff"@ {
        "TIFF Image"@
    } else if uti == "public.plain-text"@ {
        "Plain Text"@
    } else if uti == "public.text"@ {
        "Text"@
    } else if uti == "public.html"@ {
        "HTML Document"@
    } else if uti == "public.xml"@ {
        "XML Document"@
    } else if uti == "public.json"@ {
        "JSON Document"@
    } else if uti == "com.adobe.pdf"@ {
        "PDF Document"@
    } else if uti == "com.microsoft.word.doc"@ {
        "Word Document"@
    } else if uti == "org.openxmlformats.wordprocessingml.document"@ {
        "Word Document"@
    } else if uti == "public.rtf"@ {
        "Rich Text Document"@
    } else if uti == "public.markdown"@ {
        "Markdown Document"@
    } else if uti == "public.python-script"@ {
        "Python Source"@
    } else if uti == "public.javascript-source"@ {
        "JavaScript Source"@
    } else if uti == "public.ruby-script"@ {
        "Ruby Source"@
    } else if uti == "public.go-source"@ {
        "Go Source"@
    } else if uti == "public.rust-source"@ {
        "Rust Source"@
    } else if uti == "public.c-source"@ {
        "C Source"@
    } else if uti == "public.c-plus-plus-source"@ {
        "C++ Source"@
    } else if uti == "public.swift-source"@ {
        "Swift Source"@
    } else if uti == "public.java-source"@ {
        "Java Source"@
    } else if uti == "public.shell-script"@ {
        "Shell Script"@
    } else if uti == "public.zip-archive"@ {
        "ZIP Archive"@
    } else if uti == "org.gnu.gnu-zip-archive"@ {
        "GZIP Archive"@
    } else if uti == "public.tar-archive"@ {
        "TAR Archive"@
    } else if uti == "org.7-zip.7-zip-archive"@ {
        "7Z Archive"@
    } else if uti == "com.rarlab.rar-archive"@ {
        "RAR Archive"@
    } else {
        uti
    }
}

/// The display name for a content-type identifier, from the fixed name
/// table; the identifier itself when the table has no entry for it.
pub fn get_friendly_name(uti: &str) -> (r: String)
    ensures
        r@ == friendly_name_spec(uti@),
{
    if str_eq(uti, "public.mp4") {
        "MP4 Video".to_owned()
    } else if str_eq(uti, "public.mpeg") {
        "MPEG Video".to_owned()
    } else if str_eq(uti, "public.avi") {
        "AVI Video".to_owned()
    } else if str_eq(uti, "public.mov") {
        "QuickTime Movie".to_owned()
    } else if str_eq(uti, "com.apple.quicktime-movie") {
        "QuickTime Movie".to_owned()
    } else if str_eq(uti, "public.mpeg-4") {
        "MPEG-4 Video".to_owned()
    } else if str_eq(uti, "public.mp3") {
        "MP3 Audio".to_owned()
    } else if str_eq(uti, "public.wav") {
        "WAV Audio".to_owned()
    } else if str_eq(uti, "public.aiff") {
        "AIFF Audio".to_owned()
    } else if str_eq(uti, "public.m4a") {
        "M4A Audio".to_owned()
    } else if str_eq(uti, "com.apple.m4a-audio") {
        "M4A Audio".to_owned()
    } else if str_eq(uti, "public.audio") {
        "Audio".to_owned()
    } else if str_eq(uti, "public.jpeg") {
        "JPEG Image".to_owned()
    } else if str_eq(uti, "public.png") {
        "PNG Image".to_owned()
    } else if str_eq(uti, "public.gif") {
        "GIF Image".to_owned()
    } else if str_eq(uti, "com.apple.pict") {
        "PICT Image".to_owned()
    } else if str_eq(uti, "public.svg-image") {
        "SVG Image".to_owned()
    } else if str_eq(uti, "public.tiff") {
        "TIFF Image".to_owned()
    } else if str_eq(uti, "public.plain-text") {
        "Plain Text".to_owned()
    } else if str_eq(uti, "public.text") {
        "Text".to_owned()
    } else if str_eq(uti, "public.html") {
        "HTML Document".to_owned()
    } else if str_eq(uti, "public.xml") {
        "XML Document".to_owned()
    } else if str_eq(uti, "public.json") {
        "JSON Document".to_owned()
    } else if str_eq(uti, "com.adobe.pdf") {
        "PDF Document".to_owned()
    } else if str_eq(uti, "com.microsoft.word.doc") {
        "Word Document".to_owned()
    } else if str_eq(uti, "org.openxmlformats.wordprocessingml.document") {
        "Word Document".to_owned()
    } else if str_eq(uti, "public.rtf") {
        "Rich Text Document".to_owned()
    } else if str_eq(uti, "public.markdown") {
        "Markdown Document".to_owned()
    } else if str_eq(uti, "public.python-script") {
        "Python Source".to_owned()
    } else if str_eq(uti, "public.javascript-source") {
        "JavaScript Source".to_owned()
    } else if str_eq(uti, "public.ruby-script") {
        "Ruby Source".to_owned()
    } else if str_eq(uti, "public.go-source") {
        "Go Source".to_owned()
    } else if str_eq(uti, "public.rust-source") {
        "Rust Source".to_owned()
    } else if str_eq(uti, "public.c-source") {
        "C Source".to_owned()
    } else if str_eq(uti, "public.c-plus-plus-source") {
        "C++ Source".to_owned()
    } else if str_eq(uti, "public.swift-source") {
        "Swift Source".to_owned()
    } else if str_eq(uti, "public.java-source") {
        "Java Source".to_owned()
    } else if str_eq(uti, "public.shell-script") {
        "Shell Script".to_owned()
    } else if str_eq(uti, "public.zip-archive") {
        "ZIP Archive".to_owned()
    } else if str_eq(uti, "org.gnu.gnu-zip-archive") {
        "GZIP Archive".to_owned()
    } else if str_eq(uti, "public.tar-archive") {
        "TAR Archive".to_owned()
    } else if str_eq(uti, "org.7-zip.7-zip-archive") {
        "7Z Archive".to_owned()
    } else if str_eq(uti, "com.rarlab.rar-archive") {
        "RAR Archive".to_owned()
    } else {
        uti.to_owned()
    }
}

/// The presentation form of a suffix: the suffix with its leading dot
/// restored.  The identifier it resolved to plays no part.
pub fn get_common_suffix(_uti: &str, input_suffix: &str) -> (r: String)
    ensures
        r@ == "."@ + input_suffix@,
{
    String::from_str(".").concat(input_suffix)
}

} // verus!
