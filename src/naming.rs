//! Display names of channels, chart captions and chart file names.

use vstd::prelude::*;
use vstd::string::{StrSliceExecFns, StringExecFns};

verus! {

/// Title case of a string, as the titlecase crate writes it.
pub uninterp spec fn title_of(s: Seq<char>) -> Seq<char>;

/// Lower case of a string, as `str::to_lowercase` writes it.
pub uninterp spec fn lower_of(s: Seq<char>) -> Seq<char>;

/// Relies on `titlecase::titlecase`: the title-cased form of its input,
/// which depends on the characters alone.
#[verifier::external_body]
fn title_case(s: &str) -> (r: String)
    ensures
        r@ == title_of(s@),
{
    titlecase::titlecase(s)
}

/// Relies on `str::to_lowercase`: the lower-cased form of its input, which
/// depends on the characters alone.
#[verifier::external_body]
fn lowercase(s: &str) -> (r: String)
    ensures
        r@ == lower_of(s@),
{
    s.to_lowercase()
}

/// Relies on `String::push`: appends one character.
#[verifier::external_body]
fn push_char(s: &mut String, c: char)
    ensures
        final(s)@ == old(s)@.push(c),
{
    s.push(c)
}

/// The characters of `s` that are ASCII, in order.
pub open spec fn ascii_only(s: Seq<char>) -> Seq<char>
    decreases s.len(),
{
    if s.len() == 0 {
        s
    } else if (s.last() as u32) < 128 {
        ascii_only(s.drop_last()).push(s.last())
    } else {
        ascii_only(s.drop_last())
    }
}

/// `s` with every hyphen turned into a space.
pub open spec fn dashes_to_spaces(s: Seq<char>) -> Seq<char> {
    s.map_values(|c: char| if c == '-' { ' ' } else { c })
}

/// `s` with every space turned into an underscore.
pub open spec fn spaces_to_underscores(s: Seq<char>) -> Seq<char> {
    s.map_values(|c: char| if c == ' ' { '_' } else { c })
}

/// An ASCII white-space character, as `char::is_whitespace` classes it.
pub open spec fn is_space(c: char) -> bool {
    c == ' ' || ('\t' <= c && c <= '\r')
}

/// `s` without its leading white space.
pub open spec fn trim_start(s: Seq<char>) -> Seq<char>
    decreases s.len(),
{
    if s.len() > 0 && is_space(s[0]) {
        trim_start(s.drop_first())
    } else {
        s
    }
}

/// `s` without its trailing white space.
pub open spec fn trim_end(s: Seq<char>) -> Seq<char>
    decreases s.len(),
{
    if s.len() > 0 && is_space(s.last()) {
        trim_end(s.drop_last())
    } else {
        s
    }
}

/// A channel name with non-ASCII characters dropped, hyphens turned into
/// spaces and surrounding white space removed.
pub open spec fn cleaned(s: Seq<char>) -> Seq<char> {
    trim_end(trim_start(dashes_to_spaces(ascii_only(s))))
}

/// The file-name stem for a caption.
pub open spec fn stem_of(caption: Seq<char>) -> Seq<char> {
    spaces_to_underscores(lower_of(caption))
}

proof fn lemma_trim_start(s: Seq<char>, lo: int)
    requires
        0 <= lo <= s.len(),
        forall|j: int| 0 <= j < lo ==> is_space(s[j]),
        lo == s.len() || !is_space(s[lo]),
    ensures
        trim_start(s) == s.subrange(lo, s.len() as int),
    decreases lo,
{
    if lo > 0 {
        let t = s.drop_first();
        assert forall|j: int| 0 <= j < lo - 1 implies is_space(t[j]) by {
            assert(t[j] == s[j + 1]);
        }
        if lo < s.len() {
            assert(t[lo - 1] == s[lo]);
        }
        lemma_trim_start(t, lo - 1);
        assert(t.subrange(lo - 1, t.len() as int) =~= s.subrange(lo, s.len() as int));
    } else {
        assert(s.subrange(0, s.len() as int) =~= s);
    }
}

proof fn lemma_trim_end(s: Seq<char>, hi: int)
    requires
        0 <= hi <= s.len(),
        forall|j: int| hi <= j < s.len() ==> is_space(s[j]),
        hi == 0 || !is_space(s[hi - 1]),
    ensures
        trim_end(s) == s.subrange(0, hi),
    decreases s.len() - hi,
{
    if hi < s.len() {
        let t = s.drop_last();
        assert forall|j: int| hi <= j < t.len() implies is_space(t[j]) by {
            assert(t[j] == s[j]);
        }
        if hi > 0 {
            assert(t[hi - 1] == s[hi - 1]);
        }
        lemma_trim_end(t, hi);
        assert(t.subrange(0, hi) =~= s.subrange(0, hi));
    } else {
        assert(s.subrange(0, hi) =~= s);
    }
}

/// Drops non-ASCII characters, turns hyphens into spaces and trims white
/// space from both ends.
pub fn clean_name(raw: &str) -> (r: String)
    ensures
        r@ == cleaned(raw@),
{
    let n = raw.unicode_len();
    let mut kept: Vec<char> = Vec::new();
    let mut i: usize = 0;
    while i < n
        invariant
            n == raw@.len(),
            i <= n,
            kept@ == dashes_to_spaces(ascii_only(raw@.subrange(0, i as int))),
        decreases n - i,
    {
        let c = raw.get_char(i);
        proof {
            assert(raw@.subrange(0, i + 1).drop_last() =~= raw@.subrange(0, i as int));
        }
        if (c as u32) < 128 {
            kept.push(if c == '-' {
                ' '
            } else {
                c
            });
            proof {
                assert(kept@ =~= dashes_to_spaces(ascii_only(raw@.subrange(0, i + 1))));
            }
        }
        i = i + 1;
    }
    proof {
        assert(raw@.subrange(0, n as int) =~= raw@);
    }
    let ghost d = kept@;
    let mut lo: usize = 0;
    while lo < kept.len() && (kept[lo] == ' ' || ('\t' <= kept[lo] && kept[lo] <= '\r'))
        invariant
            kept@ == d,
            lo <= d.len(),
            forall|j: int| 0 <= j < lo ==> is_space(d[j]),
        decreases d.len() - lo,
    {
        lo = lo + 1;
    }
    proof {
        lemma_trim_start(d, lo as int);
    }
    let ghost f = d.subrange(lo as int, d.len() as int);
    let mut hi: usize = kept.len();
    while hi > lo && (kept[hi - 1] == ' ' || ('\t' <= kept[hi - 1] && kept[hi - 1] <= '\r'))
        invariant
            kept@ == d,
            lo <= hi <= d.len(),
            forall|j: int| hi <= j < d.len() ==> is_space(d[j]),
        decreases hi,
    {
        hi = hi - 1;
    }
    proof {
        assert forall|j: int| hi - lo <= j < f.len() implies is_space(f[j]) by {
            assert(f[j] == d[j + lo]);
        }
        if hi > lo {
            assert(f[hi - lo - 1] == d[hi - 1]);
        }
        lemma_trim_end(f, hi - lo);
        assert(f.subrange(0, hi - lo) =~= d.subrange(lo as int, hi as int));
    }
    let mut out = String::new();
    let mut k: usize = lo;
    while k < hi
        invariant
            kept@ == d,
            lo <= k <= hi <= d.len(),
            out@ == d.subrange(lo as int, k as int),
        decreases hi - k,
    {
        push_char(&mut out, kept[k]);
        proof {
            assert(out@ =~= d.subrange(lo as int, k + 1));
        }
        k = k + 1;
    }
    out
}

/// The name a channel is shown under: cleaned, then title-cased.
pub fn display_name(raw: &str) -> (r: String)
    ensures
        r@ == title_of(cleaned(raw@)),
{
    let c = clean_name(raw);
    title_case(c.as_str())
}

/// Turns every space into an underscore.
pub fn underscore_spaces(s: &str) -> (r: String)
    ensures
        r@ == spaces_to_underscores(s@),
{
    let n = s.unicode_len();
    let mut out = String::new();
    let mut i: usize = 0;
    while i < n
        invariant
            n == s@.len(),
            i <= n,
            out@ == spaces_to_underscores(s@.subrange(0, i as int)),
        decreases n - i,
    {
        let c = s.get_char(i);
        push_char(
            &mut out,
            if c == ' ' {
                '_'
            } else {
                c
            },
        );
        proof {
            assert(out@ =~= spaces_to_underscores(s@.subrange(0, i + 1)));
        }
        i = i + 1;
    }
    proof {
        assert(s@.subrange(0, n as int) =~= s@);
    }
    out
}

/// The file-name stem for a caption: lower-cased, spaces turned into
/// underscores.
pub fn file_stem(caption: &str) -> (r: String)
    ensures
        r@ == stem_of(caption@),
{
    let lower = lowercase(caption);
    underscore_spaces(lower.as_str())
}

/// File names of the daily and the weekly chart of a channel.
pub fn chart_files(name: &str) -> (r: (String, String))
    ensures
        r.0@ == stem_of(name@) + "_daily.png"@,
        r.1@ == stem_of(name@) + "_weekly.png"@,
{
    let stem = file_stem(name);
    let daily = stem.clone().concat("_daily.png");
    let weekly = stem.concat("_weekly.png");
    (daily, weekly)
}

/// Captions of the daily and the weekly chart of a channel.
pub fn chart_captions(name: &str) -> (r: (String, String))
    ensures
        r.0@ == name@ + " Daily"@,
        r.1@ == name@ + " Weekly"@,
{
    let daily = String::from_str(name).concat(" Daily");
    let weekly = String::from_str(name).concat(" Weekly");
    (daily, weekly)
}

} // verus!
