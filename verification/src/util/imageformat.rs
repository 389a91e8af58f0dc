use vstd::prelude::*;

verus! {

/// The image formats that the `image` crate names by a file extension.
#[derive(Clone, Copy, Debug, PartialEq, Eq, Structural)]
pub enum ImageKind {
    Avif,
    Jpeg,
    Png,
    Gif,
    WebP,
    Tiff,
    Tga,
    Dds,
    Bmp,
    Ico,
    Hdr,
    OpenExr,
    Pnm,
    Farbfeld,
    Qoi,
}

/// `s` split at every `/`: `a//b` has the segments `a`, the empty segment and
/// `b`; the empty text has one empty segment.
pub open spec fn path_segments(s: Seq<char>) -> Seq<Seq<char>>
    decreases s.len(),
{
    if s.len() == 0 {
        seq![Seq::empty()]
    } else {
        let f = path_segments(s.drop_last());
        if s.last() == '/' {
            f.push(Seq::empty())
        } else {
            f.update(f.len() - 1, f.last().push(s.last()))
        }
    }
}

/// The file name of a Unix path, as `std::path::Path::file_name` gives it:
/// the last segment that is neither empty nor `.`; none where there is no
/// such segment or it is `..`.
pub open spec fn file_name(p: Seq<char>) -> Option<Seq<char>> {
    let named = path_segments(p).filter(|c: Seq<char>| c.len() > 0 && c != seq!['.']);
    if named.len() == 0 || named.last() == seq!['.', '.'] {
        None
    } else {
        Some(named.last())
    }
}

/// Position of the last `.` in `s`, if it has one.
pub open spec fn last_dot(s: Seq<char>) -> Option<int>
    decreases s.len(),
{
    if s.len() == 0 {
        None
    } else if s.last() == '.' {
        Some(s.len() - 1)
    } else {
        last_dot(s.drop_last())
    }
}

/// The extension of a path, as `std::path::Path::extension` gives it: what
/// follows the last `.` of the file name, unless that `.` is the name's first
/// character or there is none.
pub open spec fn path_extension(p: Seq<char>) -> Option<Seq<char>> {
    match file_name(p) {
        None => None,
        Some(name) => match last_dot(name) {
            Some(i) => if i > 0 {
                Some(name.skip(i + 1))
            } else {
                None
            },
            None => None,
        },
    }
}

/// `c` with an ASCII capital letter made small.
pub open spec fn ascii_lower(c: char) -> char {
    if 'A' <= c <= 'Z' {
        ((c as u32) + 32) as char
    } else {
        c
    }
}

/// The format that `image::ImageFormat::from_extension` names for an
/// extension, compared after ASCII lower-casing.
pub open spec fn extension_kind(e: Seq<char>) -> Option<ImageKind> {
    let l = e.map_values(|c: char| ascii_lower(c));
    if l == seq!['a', 'v', 'i', 'f'] {
        Some(ImageKind::Avif)
    } else if l == seq!['j', 'p', 'g'] || l == seq!['j', 'p', 'e', 'g'] || l == seq!['j', 'f', 'i', 'f'] {
        Some(ImageKind::Jpeg)
    } else if l == seq!['p', 'n', 'g'] || l == seq!['a', 'p', 'n', 'g'] {
        Some(ImageKind::Png)
    } else if l == seq!['g', 'i', 'f'] {
        Some(ImageKind::Gif)
    } else if l == seq!['w', 'e', 'b', 'p'] {
        Some(ImageKind::WebP)
    } else if l == seq!['t', 'i', 'f'] || l == seq!['t', 'i', 'f', 'f'] {
        Some(ImageKind::Tiff)
    } else if l == seq!['t', 'g', 'a'] {
        Some(ImageKind::Tga)
    } else if l == seq!['d', 'd', 's'] {
        Some(ImageKind::Dds)
    } else if l == seq!['b', 'm', 'p'] {
        Some(ImageKind::Bmp)
    } else if l == seq!['i', 'c', 'o'] {
        Some(ImageKind::Ico)
    } else if l == seq!['h', 'd', 'r'] {
        Some(ImageKind::Hdr)
    } else if l == seq!['e', 'x', 'r'] {
        Some(ImageKind::OpenExr)
    } else if l == seq!['p', 'b', 'm'] || l == seq!['p', 'a', 'm'] || l == seq!['p', 'p', 'm'] || l == seq![
        'p',
        'g',
        'm',
    ] || l == seq!['p', 'n', 'm'] {
        Some(ImageKind::Pnm)
    } else if l == seq!['f', 'f'] {
        Some(ImageKind::Farbfeld)
    } else if l == seq!['q', 'o', 'i'] {
        Some(ImageKind::Qoi)
    } else {
        None
    }
}

/// The format that `image::ImageFormat::from_path` picks for a path: the one
/// its extension names, if any.
pub open spec fn format_of_path(p: Seq<char>) -> Option<ImageKind> {
    match path_extension(p) {
        Some(e) => extension_kind(e),
        None => None,
    }
}

} // verus!
