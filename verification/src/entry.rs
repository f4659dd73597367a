//! One archive entry and its derived, sanitized asset filename.

use vstd::prelude::*;
use crate::text::push_char;

verus! {

/// One comic's metadata, exactly as the remote source hands it out.
///
/// `num` is the source's own one-based numbering and must be read from the
/// fetched record, never computed from the local id. The textual and date
/// fields are opaque: no normalization is performed on them.
#[derive(Debug)]
pub struct Comic {
    pub num: usize,
    pub year: String,
    pub month: String,
    pub day: String,
    pub link: String,
    pub news: String,
    pub transcript: String,
    pub safe_title: String,
    pub title: String,
    pub alt: String,
    pub img: String,
}

impl Clone for Comic {
    fn clone(&self) -> (res: Comic)
        ensures
            res == *self,
    {
        Comic {
            num: self.num,
            year: self.year.clone(),
            month: self.month.clone(),
            day: self.day.clone(),
            link: self.link.clone(),
            news: self.news.clone(),
            transcript: self.transcript.clone(),
            safe_title: self.safe_title.clone(),
            title: self.title.clone(),
            alt: self.alt.clone(),
            img: self.img.clone(),
        }
    }
}

/// The fixed whitelist for asset filenames: ASCII letters, digits, `-`,
/// `_` and `.`. Anything else is dropped, not escaped.
pub open spec fn allowed_char(c: char) -> bool {
    ||| 'a' <= c && c <= 'z'
    ||| 'A' <= c && c <= 'Z'
    ||| '0' <= c && c <= '9'
    ||| c == '-'
    ||| c == '_'
    ||| c == '.'
}

/// The whitelisted characters of `s`, in order.
pub open spec fn filter_allowed(s: Seq<char>) -> Seq<char>
    decreases s.len(),
{
    if s.len() == 0 {
        s
    } else {
        let rest = filter_allowed(s.drop_last());
        if allowed_char(s.last()) {
            rest.push(s.last())
        } else {
            rest
        }
    }
}

/// The index right after the last `/` of `s`, or `0` if there is none.
pub open spec fn segment_start(s: Seq<char>) -> int
    decreases s.len(),
{
    if s.len() == 0 {
        0
    } else if s.last() == '/' {
        s.len() as int
    } else {
        segment_start(s.drop_last())
    }
}

/// The part of `s` after its last `/`: the whole of `s` if there is none.
pub open spec fn last_segment(s: Seq<char>) -> Seq<char> {
    s.subrange(segment_start(s), s.len() as int)
}

/// The sanitized asset filename an image URL derives: the last path
/// segment, filtered to the whitelist alphabet.
pub open spec fn asset_file_name(url: Seq<char>) -> Seq<char> {
    filter_allowed(last_segment(url))
}

/// Scanning right to left, the first `/` found (or the left end) is where
/// the last segment starts.
proof fn lemma_segment_start_at(s: Seq<char>, j: int)
    requires
        0 <= j <= s.len(),
        forall|m: int| j <= m < s.len() ==> s[m] != '/',
        j == 0 || s[j - 1] == '/',
    ensures
        segment_start(s) == j,
    decreases s.len(),
{
    if s.len() == 0 {
    } else if s.last() == '/' {
        assert(j == s.len());
    } else {
        assert(j < s.len());
        assert(forall|m: int| j <= m < s.drop_last().len() ==> s.drop_last()[m] != '/');
        assert(j == 0 || s.drop_last()[j - 1] == '/');
        lemma_segment_start_at(s.drop_last(), j);
    }
}

/// Whether `c` survives the asset-filename whitelist.
pub fn is_allowed_char(c: char) -> (b: bool)
    ensures
        b == allowed_char(c),
{
    ('a' <= c && c <= 'z') || ('A' <= c && c <= 'Z') || ('0' <= c && c <= '9') || c == '-'
        || c == '_' || c == '.'
}

impl Comic {
    /// The local filename for this comic's image: the last path segment of
    /// `img`, with every character outside the whitelist dropped.
    pub fn get_img_path(&self) -> (res: String)
        ensures
            res@ == asset_file_name(self.img@),
    {
        let s: &str = self.img.as_str();
        let n: usize = s.unicode_len();
        let mut j: usize = n;
        while j > 0 && s.get_char(j - 1) != '/'
            invariant
                j <= n,
                n == s@.len(),
                s@ == self.img@,
                forall|m: int| j <= m < s@.len() ==> s@[m] != '/',
            decreases j,
        {
            j = j - 1;
        }
        proof {
            lemma_segment_start_at(s@, j as int);
        }
        let mut res = String::new();
        let mut i: usize = j;
        while i < n
            invariant
                j <= i <= n,
                n == s@.len(),
                s@ == self.img@,
                res@ == filter_allowed(s@.subrange(j as int, i as int)),
            decreases n - i,
        {
            let c = s.get_char(i);
            proof {
                let pre = s@.subrange(j as int, i as int);
                let post = s@.subrange(j as int, i + 1 as int);
                assert(post.drop_last() =~= pre);
                assert(post.last() == s@[i as int]);
            }
            if is_allowed_char(c) {
                push_char(&mut res, c);
            }
            i = i + 1;
        }
        assert(s@.subrange(j as int, n as int) == last_segment(s@));
        res
    }
}

} // verus!
