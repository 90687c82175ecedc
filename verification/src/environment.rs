//! The machine around the program: the application bundle it may run from, the
//! page that is rendered, and the file manager.
use crate::text;
use crate::text::{chars_of, is_text};
use vstd::prelude::*;

verus! {

/// The program runs from inside an application bundle: its directory and the
/// one above it have the names that a bundle gives them.
pub fn in_bundle(directory: Option<&str>, above: Option<&str>) -> (r: bool)
    ensures
        r <==> (directory matches Some(d) && d@ == "MacOS"@) && (above matches Some(a) && a@
            == "Contents"@),
{
    match (directory, above) {
        (Some(d), Some(a)) => is_text(chars_of(d).as_slice(), "MacOS") && is_text(
            chars_of(a).as_slice(),
            "Contents",
        ),
        _ => false,
    }
}

/// Which settings the bundle makes.
#[derive(Debug, Clone, Copy)]
pub struct BundleSettings {
    /// The model cache is the one in the bundle.
    pub cache: bool,
    /// Nothing is downloaded.
    pub offline: bool,
}

/// The settings that a bundle makes: those that are not made already, if it
/// holds a model cache.
pub fn bundle_settings(
    holds_cache: bool,
    cache_is_set: bool,
    offline_is_set: bool,
) -> (r: BundleSettings)
    ensures
        r.cache == (holds_cache && !cache_is_set),
        r.offline == (holds_cache && !offline_is_set),
{
    BundleSettings {
        cache: holds_cache && !cache_is_set,
        offline: holds_cache && !offline_is_set,
    }
}

/// The place of a page, counted from zero, in a document with so many pages. A
/// page beyond the last is the last.
pub open spec fn page_place(page: u16, count: u16) -> int {
    let wanted = if page == 0 {
        0int
    } else {
        page - 1
    };
    let last = if count == 0 {
        0int
    } else {
        count - 1
    };
    if wanted <= last {
        wanted
    } else {
        last
    }
}

/// The place of a page to render.
pub fn page_index(page: u16, count: u16) -> (r: u16)
    ensures
        r == page_place(page, count),
        count > 0 ==> r < count,
{
    let wanted: u16 = if page == 0 {
        0
    } else {
        page - 1
    };
    let last: u16 = if count == 0 {
        0
    } else {
        count - 1
    };
    if wanted <= last {
        wanted
    } else {
        last
    }
}

/// A family of operating systems.
#[derive(Debug, Clone, Copy)]
pub enum Platform {
    Mac,
    Windows,
    Other,
}

/// The command that shows a file in the file manager.
pub open spec fn reveal_words(
    platform: Platform,
    path: Seq<char>,
    parent: Option<Seq<char>>,
) -> Seq<Seq<char>> {
    match platform {
        Platform::Mac => seq!["open"@, "-R"@, path],
        Platform::Windows => seq!["explorer"@, "/select,"@, path],
        Platform::Other => seq![
            "xdg-open"@,
            match parent {
                Some(d) => d,
                None => "."@,
            },
        ],
    }
}

/// The command that shows a file in the file manager: the program, then its
/// arguments.
pub fn reveal_command(platform: Platform, path: &str, parent: Option<&str>) -> (r: Vec<String>)
    ensures
        text::texts(r@) == reveal_words(
            platform,
            path@,
            match parent {
                Some(d) => Some(d@),
                None => None,
            },
        ),
{
    let mut out: Vec<String> = Vec::new();
    match platform {
        Platform::Mac => {
            out.push("open".to_owned());
            out.push("-R".to_owned());
            out.push(path.to_owned());
        },
        Platform::Windows => {
            out.push("explorer".to_owned());
            out.push("/select,".to_owned());
            out.push(path.to_owned());
        },
        Platform::Other => {
            let dir = match parent {
                Some(d) => d,
                None => ".",
            };
            out.push("xdg-open".to_owned());
            out.push(dir.to_owned());
        },
    }
    proof {
        let p = match parent {
            Some(d) => Some(d@),
            None => None,
        };
        assert(text::texts(out@) =~= reveal_words(platform, path@, p));
    }
    out
}

/// Every page of the book is rendered from its own place, counted from one; a
/// number past the end gives the last page, and none gives the first.
pub proof fn pages_are_rendered_from_their_place(page: u16, count: u16)
    ensures
        1 <= page <= count ==> page_place(page, count) == page - 1,
        page > count >= 1 ==> page_place(page, count) == count - 1,
        page == 0 || count == 0 ==> page_place(page, count) == 0,
{
}

/// On a Mac and on Windows the file itself is shown, as the last word of the
/// command; elsewhere the folder is opened that holds it.
pub proof fn files_are_shown(path: Seq<char>, folder: Seq<char>)
    ensures
        reveal_words(Platform::Mac, path, Some(folder)).last() == path,
        reveal_words(Platform::Windows, path, Some(folder)).last() == path,
        reveal_words(Platform::Other, path, Some(folder)).last() == folder,
        reveal_words(Platform::Other, path, None).last() == "."@,
        reveal_words(Platform::Mac, path, None) == reveal_words(
            Platform::Mac,
            path,
            Some(folder),
        ),
        reveal_words(Platform::Windows, path, None) == reveal_words(
            Platform::Windows,
            path,
            Some(folder),
        ),
        reveal_words(Platform::Mac, path, None)[0] == "open"@,
        reveal_words(Platform::Windows, path, None)[0] == "explorer"@,
        reveal_words(Platform::Other, path, None)[0] == "xdg-open"@,
{
}

} // verus!
