//! Output-shaping helpers: which fields to show, how much content to keep,
//! and where to cut a text so it still ends at a sentence or word boundary.
//!
//! Rendering itself — colors, layout, printing — is the caller's business;
//! these functions only make the decisions that rendering follows.

use vstd::prelude::*;

verus! {

/// Content budget, in characters, when compact output was asked for.
pub const COMPACT_MAX_CHARS: usize = 300;

/// Content budget, in characters, otherwise.
pub const NORMAL_MAX_CHARS: usize = 500;

/// The effective content budget: the explicit override when one was given,
/// else the compact or the normal default.
pub fn get_max_chars(max_chars: Option<usize>, compact: bool) -> (r: usize)
    ensures
        r == match max_chars {
            Some(m) => m,
            None => if compact { COMPACT_MAX_CHARS } else { NORMAL_MAX_CHARS },
        },
{
    match max_chars {
        Some(m) => m,
        None => if compact {
            COMPACT_MAX_CHARS
        } else {
            NORMAL_MAX_CHARS
        },
    }
}

/// Whether `fields` names `x`.
pub open spec fn field_listed(fields: Seq<String>, x: Seq<char>) -> bool {
    exists|i: int| 0 <= i < fields.len() && (#[trigger] fields[i])@ == x
}

/// Whether a field should be rendered: every field is shown when no field
/// list was given, else exactly the listed ones.
pub fn show_field(fields: &Option<Vec<String>>, name: &str) -> (r: bool)
    ensures
        r == match fields {
            Some(fs) => field_listed(fs@, name@),
            None => true,
        },
{
    match fields {
        None => true,
        Some(fs) => {
            let wanted = String::from_str(name);
            let n = fs.len();
            let mut i: usize = 0;
            while i < n
                invariant
                    i <= n,
                    n == fs@.len(),
                    wanted@ == name@,
                    *fields == Some(*fs),
                    forall|j: int| 0 <= j < i ==> (#[trigger] fs@[j])@ != name@,
                decreases n - i,
            {
                if fs[i] == wanted {
                    proof {
                        assert((fs@[i as int])@ == name@);
                    }
                    return true;
                }
                i += 1;
            }
            false
        },
    }
}

/// ASCII lowercasing of one character; anything outside `A`..`Z` stands.
pub open spec fn lower_char(c: char) -> char {
    if 'A' <= c <= 'Z' {
        ((c as u8) + 32) as char
    } else {
        c
    }
}

/// ASCII lowercasing of a string.
pub open spec fn lower_of(s: Seq<char>) -> Seq<char> {
    s.map_values(|c: char| lower_char(c))
}

fn lower_char_exec(c: char) -> (r: char)
    ensures
        r == lower_char(c),
{
    if 'A' <= c && c <= 'Z' {
        ((c as u8) + 32) as char
    } else {
        c
    }
}


/// Whitespace for the purpose of trimming a cut text.
pub open spec fn is_ws(c: char) -> bool {
    c == ' ' || c == '\t' || c == '\n' || c == '\r'
}

/// `s` without its trailing whitespace.
pub open spec fn trim_end_ws(s: Seq<char>) -> Seq<char>
    decreases s.len(),
{
    if s.len() > 0 && is_ws(s.last()) {
        trim_end_ws(s.drop_last())
    } else {
        s
    }
}

/// Position `i` ends a sentence: punctuation followed by a space.
pub open spec fn sentence_end_at(s: Seq<char>, i: int) -> bool {
    (s[i] == '.' || s[i] == '?' || s[i] == '!') && s[i + 1] == ' '
}

/// The largest position at most `i` that ends a sentence, or `-1`.
pub open spec fn last_sentence_end(s: Seq<char>, i: int) -> int
    decreases i + 1,
{
    if i < 0 {
        -1
    } else if sentence_end_at(s, i) {
        i
    } else {
        last_sentence_end(s, i - 1)
    }
}

/// The largest position at most `i` holding a space, or `-1`.
pub open spec fn last_space(s: Seq<char>, i: int) -> int
    decreases i + 1,
{
    if i < 0 {
        -1
    } else if s[i] == ' ' {
        i
    } else {
        last_space(s, i - 1)
    }
}

/// Where a window is cut: just after the last sentence end, else at the
/// last word boundary, else at the full window.
pub open spec fn cut_point(w: Seq<char>) -> int {
    let sc = last_sentence_end(w, w.len() - 2);
    if sc >= 0 {
        sc + 1
    } else {
        let sp = last_space(w, w.len() - 1);
        if sp >= 0 {
            sp
        } else {
            w.len() as int
        }
    }
}

/// A text of more than `max` characters, cut at the last sentence boundary
/// within the first `max` characters — falling back to the last word
/// boundary, then to a hard cut — trailing whitespace trimmed, and an
/// ellipsis appended. A text that already fits stands as it is.
pub open spec fn truncated(s: Seq<char>, max: int) -> Seq<char> {
    if s.len() <= max {
        s
    } else {
        let w = s.take(max);
        trim_end_ws(w.take(cut_point(w))) + "..."@
    }
}

/// Truncates `text` to at most `max_chars` characters at the last sentence
/// boundary, falling back to the last word boundary, then to a hard cut,
/// and appends an ellipsis; a text that already fits comes back unchanged.
pub fn truncate_text(text: &str, max_chars: usize) -> (r: String)
    ensures
        r@ == truncated(text@, max_chars as int),
{
    let n = text.unicode_len();
    if n <= max_chars {
        return String::from_str(text);
    }
    let ghost w = text@.take(max_chars as int);
    let mut cut: usize = max_chars;
    let mut found: bool = false;
    if max_chars >= 2 {
        let mut p: usize = max_chars - 1;
        while p > 0 && !found
            invariant
                w == text@.take(max_chars as int),
                n == text@.len(),
                max_chars < n,
                2 <= max_chars,
                p <= max_chars - 1,
                found ==> 1 <= cut <= max_chars - 1
                    && last_sentence_end(w, max_chars as int - 2) == cut - 1,
                !found ==> cut == max_chars
                    && last_sentence_end(w, max_chars as int - 2)
                        == last_sentence_end(w, p as int - 1),
            decreases p,
        {
            p -= 1;
            let c = text.get_char(p);
            let c2 = text.get_char(p + 1);
            if (c == '.' || c == '?' || c == '!') && c2 == ' ' {
                found = true;
                cut = p + 1;
                proof {
                    assert(sentence_end_at(w, p as int));
                }
            } else {
                proof {
                    assert(!sentence_end_at(w, p as int));
                }
            }
        }
    }
    if !found {
        proof {
            assert(last_sentence_end(w, max_chars as int - 2) == -1);
        }
        let mut q: usize = max_chars;
        let mut wfound: bool = false;
        while q > 0 && !wfound
            invariant
                w == text@.take(max_chars as int),
                n == text@.len(),
                max_chars < n,
                q <= max_chars,
                wfound ==> cut <= max_chars - 1
                    && last_space(w, max_chars as int - 1) == cut,
                !wfound ==> cut == max_chars
                    && last_space(w, max_chars as int - 1) == last_space(w, q as int - 1),
            decreases q,
        {
            q -= 1;
            let c = text.get_char(q);
            if c == ' ' {
                wfound = true;
                cut = q;
            }
        }
        proof {
            if !wfound {
                assert(last_space(w, max_chars as int - 1) == -1);
            }
            assert(cut == cut_point(w));
        }
    } else {
        proof {
            assert(cut == cut_point(w));
        }
    }
    let ghost cp = cut_point(w);
    let mut k: usize = cut;
    let mut done: bool = false;
    while k > 0 && !done
        invariant
            w == text@.take(max_chars as int),
            n == text@.len(),
            max_chars < n,
            k <= max_chars,
            cp == cut_point(w),
            0 <= cp <= max_chars,
            trim_end_ws(w.take(cp)) == trim_end_ws(w.take(k as int)),
            done ==> k > 0 && !is_ws(w[k as int - 1]),
        decreases k + (if done { 0int } else { 1int }),
    {
        let c = text.get_char(k - 1);
        if c == ' ' || c == '\t' || c == '\n' || c == '\r' {
            proof {
                assert(w.take(k as int).last() == w[k as int - 1]);
                assert(w.take(k as int).drop_last() =~= w.take(k as int - 1));
            }
            k -= 1;
        } else {
            done = true;
        }
    }
    proof {
        assert(trim_end_ws(w.take(k as int)) == w.take(k as int)) by {
            if k == 0 {
                assert(w.take(0).len() == 0);
            }
        }
    }
    let head = text.substring_char(0, k);
    let mut r = String::from_str(head);
    r.append("...");
    proof {
        reveal_strlit("...");
        assert(head@ =~= w.take(k as int));
        assert(r@ =~= truncated(text@, max_chars as int));
    }
    r
}


/// The content request attached to a search: full text, or key excerpts
/// capped at a character budget, with an optional verbosity word.
#[derive(Debug, Clone, PartialEq)]
pub struct ContentsConfig {
    pub text: Option<bool>,
    pub highlights: Option<usize>,
    pub verbosity: Option<String>,
}

/// Builds the content request from the flags: excerpts win over full text,
/// and without either no content is requested at all.
pub fn build_contents(content: bool, highlights: Option<usize>, verbosity: &Option<String>) -> (r: Option<ContentsConfig>)
    ensures
        r == (if highlights is Some {
            Some(ContentsConfig { text: None, highlights: highlights, verbosity: *verbosity })
        } else if content {
            Some(ContentsConfig { text: Some(true), highlights: None, verbosity: *verbosity })
        } else {
            None::<ContentsConfig>
        }),
{
    let verbosity_copy = match verbosity {
        Some(v) => Some(v.clone()),
        None => None,
    };
    match highlights {
        Some(h) => Some(ContentsConfig { text: None, highlights: Some(h), verbosity: verbosity_copy }),
        None => {
            if content {
                Some(ContentsConfig { text: Some(true), highlights: None, verbosity: verbosity_copy })
            } else {
                None
            }
        },
    }
}

/// The comma-separated pieces of `s`, split on every comma; an empty
/// string is one empty piece.
pub open spec fn split_commas(s: Seq<char>) -> Seq<Seq<char>>
    decreases s.len(),
{
    if s.len() == 0 {
        seq![Seq::<char>::empty()]
    } else {
        let rest = split_commas(s.drop_last());
        if s.last() == ',' {
            rest.push(Seq::<char>::empty())
        } else {
            rest.update(rest.len() - 1, rest.last().push(s.last()))
        }
    }
}

proof fn lemma_split_commas_len(s: Seq<char>)
    ensures
        split_commas(s).len() >= 1,
    decreases s.len(),
{
    if s.len() > 0 {
        lemma_split_commas_len(s.drop_last());
    }
}

/// `s` without its leading whitespace.
pub open spec fn trim_start_ws(s: Seq<char>) -> Seq<char>
    decreases s.len(),
{
    if s.len() > 0 && is_ws(s[0]) {
        trim_start_ws(s.drop_first())
    } else {
        s
    }
}

/// `s` without leading and trailing whitespace.
pub open spec fn trim_ws(s: Seq<char>) -> Seq<char> {
    trim_end_ws(trim_start_ws(s))
}

/// One field name as it is matched: trimmed and ASCII-lowercased.
pub open spec fn normalized_field(s: Seq<char>) -> Seq<char> {
    lower_of(trim_ws(s))
}

fn push_char_lower(r: &mut String, src: &str, idx: usize)
    requires
        idx < src@.len(),
        idx < usize::MAX,
    ensures
        final(r)@ == old(r)@ + seq![lower_char(src@[idx as int])],
{
    let c = src.get_char(idx);
    if c == 'A' { r.append("a"); proof { reveal_strlit("a"); assert(r@ =~= old(r)@ + seq![lower_char(src@[idx as int])]); } }
    else if c == 'B' { r.append("b"); proof { reveal_strlit("b"); assert(r@ =~= old(r)@ + seq![lower_char(src@[idx as int])]); } }
    else if c == 'C' { r.append("c"); proof { reveal_strlit("c"); assert(r@ =~= old(r)@ + seq![lower_char(src@[idx as int])]); } }
    else if c == 'D' { r.append("d"); proof { reveal_strlit("d"); assert(r@ =~= old(r)@ + seq![lower_char(src@[idx as int])]); } }
    else if c == 'E' { r.append("e"); proof { reveal_strlit("e"); assert(r@ =~= old(r)@ + seq![lower_char(src@[idx as int])]); } }
    else if c == 'F' { r.append("f"); proof { reveal_strlit("f"); assert(r@ =~= old(r)@ + seq![lower_char(src@[idx as int])]); } }
    else if c == 'G' { r.append("g"); proof { reveal_strlit("g"); assert(r@ =~= old(r)@ + seq![lower_char(src@[idx as int])]); } }
    else if c == 'H' { r.append("h"); proof { reveal_strlit("h"); assert(r@ =~= old(r)@ + seq![lower_char(src@[idx as int])]); } }
    else if c == 'I' { r.append("i"); proof { reveal_strlit("i"); assert(r@ =~= old(r)@ + seq![lower_char(src@[idx as int])]); } }
    else if c == 'J' { r.append("j"); proof { reveal_strlit("j"); assert(r@ =~= old(r)@ + seq![lower_char(src@[idx as int])]); } }
    else if c == 'K' { r.append("k"); proof { reveal_strlit("k"); assert(r@ =~= old(r)@ + seq![lower_char(src@[idx as int])]); } }
    else if c == 'L' { r.append("l"); proof { reveal_strlit("l"); assert(r@ =~= old(r)@ + seq![lower_char(src@[idx as int])]); } }
    else if c == 'M' { r.append("m"); proof { reveal_strlit("m"); assert(r@ =~= old(r)@ + seq![lower_char(src@[idx as int])]); } }
    else if c == 'N' { r.append("n"); proof { reveal_strlit("n"); assert(r@ =~= old(r)@ + seq![lower_char(src@[idx as int])]); } }
    else if c == 'O' { r.append("o"); proof { reveal_strlit("o"); assert(r@ =~= old(r)@ + seq![lower_char(src@[idx as int])]); } }
    else if c == 'P' { r.append("p"); proof { reveal_strlit("p"); assert(r@ =~= old(r)@ + seq![lower_char(src@[idx as int])]); } }
    else if c == 'Q' { r.append("q"); proof { reveal_strlit("q"); assert(r@ =~= old(r)@ + seq![lower_char(src@[idx as int])]); } }
    else if c == 'R' { r.append("r"); proof { reveal_strlit("r"); assert(r@ =~= old(r)@ + seq![lower_char(src@[idx as int])]); } }
    else if c == 'S' { r.append("s"); proof { reveal_strlit("s"); assert(r@ =~= old(r)@ + seq![lower_char(src@[idx as int])]); } }
    else if c == 'T' { r.append("t"); proof { reveal_strlit("t"); assert(r@ =~= old(r)@ + seq![lower_char(src@[idx as int])]); } }
    else if c == 'U' { r.append("u"); proof { reveal_strlit("u"); assert(r@ =~= old(r)@ + seq![lower_char(src@[idx as int])]); } }
    else if c == 'V' { r.append("v"); proof { reveal_strlit("v"); assert(r@ =~= old(r)@ + seq![lower_char(src@[idx as int])]); } }
    else if c == 'W' { r.append("w"); proof { reveal_strlit("w"); assert(r@ =~= old(r)@ + seq![lower_char(src@[idx as int])]); } }
    else if c == 'X' { r.append("x"); proof { reveal_strlit("x"); assert(r@ =~= old(r)@ + seq![lower_char(src@[idx as int])]); } }
    else if c == 'Y' { r.append("y"); proof { reveal_strlit("y"); assert(r@ =~= old(r)@ + seq![lower_char(src@[idx as int])]); } }
    else if c == 'Z' { r.append("z"); proof { reveal_strlit("z"); assert(r@ =~= old(r)@ + seq![lower_char(src@[idx as int])]); } }
    else {
        let one = src.substring_char(idx, idx + 1);
        r.append(one);
        proof {
            assert(one@ =~= seq![src@[idx as int]]);
            assert(r@ =~= old(r)@ + seq![lower_char(src@[idx as int])]);
        }
    }
}

/// Builds the normalized form of the piece `src[ps..pe]`: trimmed at both
/// ends, then ASCII-lowercased.
fn normalize_piece(src: &str, ps: usize, pe: usize) -> (r: String)
    requires
        ps <= pe <= src@.len(),
    ensures
        r@ == normalized_field(src@.subrange(ps as int, pe as int)),
{
    let ghost piece = src@.subrange(ps as int, pe as int);
    let mut a = ps;
    let mut adone = false;
    while a < pe && !adone
        invariant
            ps <= a <= pe <= src@.len(),
            piece == src@.subrange(ps as int, pe as int),
            trim_start_ws(piece) == trim_start_ws(src@.subrange(a as int, pe as int)),
            adone ==> a < pe && !is_ws(src@[a as int]),
        decreases pe - a + (if adone { 0int } else { 1int }),
    {
        let c = src.get_char(a);
        if c == ' ' || c == '\t' || c == '\n' || c == '\r' {
            proof {
                let cur = src@.subrange(a as int, pe as int);
                assert(cur[0] == src@[a as int]);
                assert(cur.drop_first() =~= src@.subrange(a + 1int, pe as int));
            }
            a += 1;
        } else {
            adone = true;
        }
    }
    proof {
        let cur = src@.subrange(a as int, pe as int);
        if a < pe {
            assert(cur[0] == src@[a as int]);
        }
        assert(trim_start_ws(piece) == cur);
    }
    let mut b = pe;
    let mut bdone = false;
    while b > a && !bdone
        invariant
            ps <= a <= b <= pe <= src@.len(),
            piece == src@.subrange(ps as int, pe as int),
            trim_start_ws(piece) == src@.subrange(a as int, pe as int),
            trim_end_ws(src@.subrange(a as int, pe as int))
                == trim_end_ws(src@.subrange(a as int, b as int)),
            bdone ==> b > a && !is_ws(src@[b as int - 1]),
        decreases b + (if bdone { 0int } else { 1int }),
    {
        let c = src.get_char(b - 1);
        if c == ' ' || c == '\t' || c == '\n' || c == '\r' {
            proof {
                let cur = src@.subrange(a as int, b as int);
                assert(cur.last() == src@[b as int - 1]);
                assert(cur.drop_last() =~= src@.subrange(a as int, b as int - 1));
            }
            b -= 1;
        } else {
            bdone = true;
        }
    }
    proof {
        let cur = src@.subrange(a as int, b as int);
        if b > a {
            assert(cur.last() == src@[b as int - 1]);
        }
        assert(trim_ws(piece) == cur);
    }
    let mut r = String::new();
    let mut i = a;
    while i < b
        invariant
            a <= i <= b <= src@.len(),
            r@ == lower_of(src@.subrange(a as int, i as int)),
        decreases b - i,
    {
        push_char_lower(&mut r, src, i);
        proof {
            assert(lower_of(src@.subrange(a as int, i + 1int))
                =~= lower_of(src@.subrange(a as int, i as int))
                    + seq![lower_char(src@[i as int])]);
        }
        i += 1;
    }
    proof {
        assert(r@ == lower_of(src@.subrange(a as int, b as int)));
        assert(r@ == normalized_field(piece));
    }
    r
}

/// Splits a comma-separated field list into its normalized field names:
/// each piece trimmed and ASCII-lowercased. No list at all means every
/// field is shown, and comes back as nothing.
pub fn parse_fields(fields: &Option<String>) -> (r: Option<Vec<String>>)
    ensures
        match fields {
            None => r is None,
            Some(f) => r matches Some(v) && v@.len() == split_commas(f@).len()
                && forall|i: int| 0 <= i < v@.len()
                    ==> (#[trigger] v@[i])@ == normalized_field(split_commas(f@)[i]),
        },
{
    match fields {
        None => None,
        Some(f) => {
            let s: &str = f.as_str();
            let n = s.unicode_len();
            let mut out: Vec<String> = Vec::new();
            let mut ps: usize = 0;
            let mut idx: usize = 0;
            let ghost raw: Seq<Seq<char>> = Seq::empty();
            let mut done: Ghost<Seq<Seq<char>>> = Ghost(raw);
            proof {
                assert(s@.take(0int) =~= Seq::<char>::empty());
                assert(split_commas(s@.take(0int))
                    =~~= done@.push(s@.subrange(0int, 0int)));
            }
            while idx < n
                invariant
                    ps <= idx <= n,
                    n == s@.len(),
                    s@ == f@,
                    *fields == Some(*f),
                    split_commas(s@.take(idx as int))
                        == done@.push(s@.subrange(ps as int, idx as int)),
                    out@.len() == done@.len(),
                    forall|j: int| 0 <= j < done@.len()
                        ==> (#[trigger] out@[j])@ == normalized_field(done@[j]),
                decreases n - idx,
            {
                let c = s.get_char(idx);
                proof {
                    let t1 = s@.take(idx + 1int);
                    assert(t1.last() == s@[idx as int]);
                    assert(t1.drop_last() =~= s@.take(idx as int));
                    lemma_split_commas_len(s@.take(idx as int));
                }
                if c == ',' {
                    let piece = normalize_piece(s, ps, idx);
                    out.push(piece);
                    proof {
                        done@ = done@.push(s@.subrange(ps as int, idx as int));
                    }
                    ps = idx + 1;
                    proof {
                        assert(split_commas(s@.take(idx + 1int))
                            =~~= done@.push(s@.subrange(idx + 1int, idx + 1int)));
                    }
                } else {
                    proof {
                        assert(s@.subrange(ps as int, idx + 1int)
                            =~= s@.subrange(ps as int, idx as int).push(s@[idx as int]));
                        assert(split_commas(s@.take(idx + 1int))
                            =~~= done@.push(s@.subrange(ps as int, idx + 1int)));
                    }
                }
                idx += 1;
            }
            let last_piece = normalize_piece(s, ps, n);
            out.push(last_piece);
            proof {
                assert(s@.take(n as int) =~= s@);
                let parts = split_commas(f@);
                assert(parts == done@.push(s@.subrange(ps as int, n as int)));
                assert forall|i: int| 0 <= i < out@.len()
                    implies (#[trigger] out@[i])@ == normalized_field(parts[i]) by {
                    if i < done@.len() {
                        assert(parts[i] == done@[i]);
                    } else {
                        assert(parts[i] == s@.subrange(ps as int, n as int));
                    }
                }
            }
            Some(out)
        },
    }
}

} // verus!
