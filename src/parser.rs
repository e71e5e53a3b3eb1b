//! Reading blocklist text: comments, words, and the judgement of a leading address.
use vstd::prelude::*;
use crate::text::{is_white_space, chars_of, string_of, opt_seq};
use crate::host::{Host, HostError, valid_host};

verus! {

broadcast use vstd::seq_lib::group_seq_properties;

/// The text before the first `#`.
pub open spec fn strip_comment(l: Seq<char>) -> Seq<char>
    decreases l.len(),
{
    if l.len() == 0 || l[0] == '#' {
        Seq::empty()
    } else {
        seq![l[0]] + strip_comment(l.drop_first())
    }
}

/// The maximal runs of characters other than white space, from left to right.
pub open spec fn words(t: Seq<char>) -> Seq<Seq<char>>
    decreases t.len(),
{
    if t.len() == 0 {
        Seq::empty()
    } else {
        let w = words(t.drop_last());
        let c = t.last();
        if is_white_space(c) {
            w
        } else if t.len() >= 2 && !is_white_space(t[t.len() - 2]) {
            w.drop_last().push(w.last().push(c))
        } else {
            w.push(seq![c])
        }
    }
}

/// The pieces of `t` between line feeds; there is always at least one.
pub open spec fn split_lines(t: Seq<char>) -> Seq<Seq<char>>
    decreases t.len(),
{
    if t.len() == 0 {
        seq![Seq::empty()]
    } else {
        let p = split_lines(t.drop_last());
        if t.last() == '\n' {
            p.push(Seq::empty())
        } else {
            p.drop_last().push(p.last().push(t.last()))
        }
    }
}

/// A line that ended in `\r\n` loses its carriage return.
pub open spec fn drop_cr(p: Seq<char>) -> Seq<char> {
    if p.len() > 0 && p.last() == '\r' {
        p.drop_last()
    } else {
        p
    }
}

/// The lines of a text, as `str::lines` gives them, and possibly one empty line more at the end.
pub open spec fn text_lines(t: Seq<char>) -> Seq<Seq<char>> {
    let p = split_lines(t);
    p.drop_last().map_values(|x: Seq<char>| drop_cr(x)).push(p.last())
}

/// What one line of a blocklist says, before any address in it is judged.
#[derive(Debug)]
pub enum Line {
    /// A host name, after an address or alone.
    Entry { ip: Option<String>, host: String },
    /// A line of more than two words; `text` is the line without its comment.
    Unmatched { text: String },
}

/// The mathematical value of a `Line`.
pub enum LineView {
    Entry { ip: Option<Seq<char>>, host: Seq<char> },
    Unmatched { text: Seq<char> },
}

impl View for Line {
    type V = LineView;

    open spec fn view(&self) -> LineView {
        match self {
            Line::Entry { ip, host } => LineView::Entry {
                ip: match ip {
                    Some(a) => Some(a@),
                    None => None,
                },
                host: host@,
            },
            Line::Unmatched { text } => LineView::Unmatched { text: text@ },
        }
    }
}

/// The reading of one line: nothing for a blank or comment line; an optional address and a
/// host for one or two words; otherwise the line cannot be read.
pub open spec fn line_shape(l: Seq<char>) -> Option<LineView> {
    let t = strip_comment(l);
    let w = words(t);
    if w.len() == 0 {
        None
    } else if w.len() == 1 {
        Some(LineView::Entry { ip: None, host: w[0] })
    } else if w.len() == 2 {
        Some(LineView::Entry { ip: Some(w[0]), host: w[1] })
    } else {
        Some(LineView::Unmatched { text: t })
    }
}

/// The readings of the lines that say something, in order.
pub open spec fn shapes(lines: Seq<Seq<char>>) -> Seq<LineView>
    decreases lines.len(),
{
    if lines.len() == 0 {
        Seq::empty()
    } else {
        shapes(lines.drop_last()) + opt_seq(line_shape(lines.last()))
    }
}

/// The readings of the lines of a blocklist text.
pub open spec fn scan_spec(text: Seq<char>) -> Seq<LineView> {
    shapes(text_lines(text))
}

proof fn lemma_strip_comment(l: Seq<char>, k: int)
    requires
        0 <= k <= l.len(),
        k == l.len() || l[k] == '#',
        forall|j: int| 0 <= j < k ==> l[j] != '#',
    ensures
        strip_comment(l) == l.subrange(0, k),
    decreases k,
{
    if k == 0 {
        assert(l.subrange(0, 0) =~= Seq::<char>::empty());
    } else {
        lemma_strip_comment(l.drop_first(), k - 1);
        assert(l.subrange(0, k) =~= seq![l[0]] + l.drop_first().subrange(0, k - 1));
    }
}

/// The words of `t`, with the characters of `t` in hand.
fn words_of(t: &Vec<char>, k: usize) -> (r: Vec<Vec<char>>)
    requires
        k <= t.len(),
    ensures
        r@.map_values(|w: Vec<char>| w@) == words(t@.subrange(0, k as int)),
{
    let mut ws: Vec<Vec<char>> = Vec::new();
    let mut i: usize = 0;
    assert(t@.subrange(0, 0) =~= Seq::<char>::empty());
    assert(ws@.map_values(|w: Vec<char>| w@) =~= Seq::<Seq<char>>::empty());
    while i < k
        invariant
            i <= k <= t.len(),
            ws@.map_values(|w: Vec<char>| w@) == words(t@.subrange(0, i as int)),
            i > 0 && !is_white_space(t@[i - 1]) ==> ws.len() > 0,
        decreases k - i,
    {
        let ghost pre = t@.subrange(0, i as int);
        let ghost post = t@.subrange(0, i + 1);
        let ghost old_ws = ws@.map_values(|w: Vec<char>| w@);
        assert(post.drop_last() =~= pre);
        assert(post.last() == t@[i as int]);
        let c = t[i];
        if c.is_whitespace() {
        } else if i > 0 && !t[i - 1].is_whitespace() {
            assert(post[post.len() - 2] == t@[i - 1]);
            let mut last = ws.pop().unwrap();
            last.push(c);
            ws.push(last);
            assert(ws@.map_values(|w: Vec<char>| w@) =~= old_ws.drop_last().push(
                old_ws.last().push(c),
            ));
        } else {
            if i > 0 {
                assert(post[post.len() - 2] == t@[i - 1]);
            }
            let mut w: Vec<char> = Vec::new();
            w.push(c);
            ws.push(w);
            assert(ws@.map_values(|w: Vec<char>| w@) =~= old_ws.push(seq![c]));
        }
        i = i + 1;
    }
    ws
}

/// Reads one line, given as its characters.
pub fn scan_line(l: &Vec<char>) -> (r: Option<Line>)
    ensures
        match r {
            Some(line) => line_shape(l@) == Some(line@),
            None => line_shape(l@) is None,
        },
{
    let mut k: usize = 0;
    while k < l.len() && l[k] != '#'
        invariant
            k <= l.len(),
            forall|j: int| 0 <= j < k ==> l@[j] != '#',
        decreases l.len() - k,
    {
        k = k + 1;
    }
    proof {
        lemma_strip_comment(l@, k as int);
    }
    let ws = words_of(l, k);
    let ghost wv = ws@.map_values(|w: Vec<char>| w@);
    if ws.len() == 0 {
        None
    } else if ws.len() == 1 {
        assert(wv[0] == ws@[0]@);
        Some(Line::Entry { ip: None, host: string_of(&ws[0]) })
    } else if ws.len() == 2 {
        assert(wv[0] == ws@[0]@);
        assert(wv[1] == ws@[1]@);
        Some(Line::Entry { ip: Some(string_of(&ws[0])), host: string_of(&ws[1]) })
    } else {
        let mut text: Vec<char> = Vec::new();
        let mut i: usize = 0;
        while i < k
            invariant
                i <= k <= l.len(),
                text@ == l@.subrange(0, i as int),
            decreases k - i,
        {
            text.push(l[i]);
            assert(l@.subrange(0, i + 1) =~= l@.subrange(0, i as int).push(l@[i as int]));
            i = i + 1;
        }
        Some(Line::Unmatched { text: string_of(&text) })
    }
}

proof fn lemma_shapes_push(lines: Seq<Seq<char>>, x: Seq<char>)
    ensures
        shapes(lines.push(x)) == shapes(lines) + opt_seq(line_shape(x)),
{
    assert(lines.push(x).drop_last() =~= lines);
}

/// Reads every line of a blocklist text that says something, in order.
pub fn scan_blocklist(text: &str) -> (r: Vec<Line>)
    ensures
        r@.map_values(|l: Line| l@) == scan_spec(text@),
{
    let cs = chars_of(text);
    let mut out: Vec<Line> = Vec::new();
    let mut cur: Vec<char> = Vec::new();
    let mut i: usize = 0;
    assert(cs@.subrange(0, 0) =~= Seq::<char>::empty());
    assert(split_lines(Seq::<char>::empty()).drop_last() =~= Seq::<Seq<char>>::empty());
    assert(Seq::<Seq<char>>::empty().map_values(|x: Seq<char>| drop_cr(x)) =~= Seq::<
        Seq<char>,
    >::empty());
    assert(out@.map_values(|l: Line| l@) =~= Seq::<LineView>::empty());
    while i < cs.len()
        invariant
            cs@ == text@,
            i <= cs.len(),
            split_lines(cs@.subrange(0, i as int)).len() >= 1,
            cur@ == split_lines(cs@.subrange(0, i as int)).last(),
            out@.map_values(|l: Line| l@) == shapes(
                split_lines(cs@.subrange(0, i as int)).drop_last().map_values(
                    |x: Seq<char>| drop_cr(x),
                ),
            ),
        decreases cs.len() - i,
    {
        let ghost pre = cs@.subrange(0, i as int);
        let ghost post = cs@.subrange(0, i + 1);
        let ghost p = split_lines(pre);
        let ghost old_out = out@.map_values(|l: Line| l@);
        assert(post.drop_last() =~= pre);
        assert(post.last() == cs@[i as int]);
        let c = cs[i];
        if c == '\n' {
            let mut line = cur;
            if line.len() > 0 && line[line.len() - 1] == '\r' {
                line.pop();
            }
            assert(line@ == drop_cr(p.last()));
            let ghost done = p.drop_last().map_values(|x: Seq<char>| drop_cr(x));
            assert(split_lines(post).drop_last().map_values(|x: Seq<char>| drop_cr(x)) =~= done.push(
                drop_cr(p.last()),
            ));
            proof {
                lemma_shapes_push(done, drop_cr(p.last()));
            }
            match scan_line(&line) {
                Some(l) => {
                    out.push(l);
                    assert(out@.map_values(|l: Line| l@) =~= old_out.push(l@));
                },
                None => {
                    assert(opt_seq(line_shape(line@)) =~= Seq::<LineView>::empty());
                },
            }
            cur = Vec::new();
        } else {
            cur.push(c);
            assert(split_lines(post).drop_last() =~= p.drop_last());
        }
        i = i + 1;
    }
    proof {
        assert(cs@.subrange(0, i as int) =~= text@);
    }
    let ghost p = split_lines(text@);
    let ghost done = p.drop_last().map_values(|x: Seq<char>| drop_cr(x));
    let ghost old_out = out@.map_values(|l: Line| l@);
    proof {
        lemma_shapes_push(done, p.last());
    }
    match scan_line(&cur) {
        Some(l) => {
            out.push(l);
            assert(out@.map_values(|l: Line| l@) =~= old_out.push(l@));
        },
        None => {
            assert(opt_seq(line_shape(cur@)) =~= Seq::<LineView>::empty());
        },
    }
    out
}

/// What kind of address the leading word of a line is.
#[derive(Debug, Clone, Copy, PartialEq, Eq, Structural)]
pub enum IpKind {
    /// The unspecified address (all zeros).
    Unspecified,
    /// A loopback address.
    Loopback,
    /// Any other address.
    Other,
    /// Not an address at all.
    Malformed,
}

/// Why one line of a blocklist gave no host.
#[derive(Debug)]
pub enum ParseError {
    /// The line, without its comment, is not one or two words.
    Unmatched { line: String },
    /// The leading word is not an address.
    MalformedIp { ip: String },
    /// The leading word is an address that neither blocks nor loops back.
    SuspiciousIp { ip: String },
    /// The host word is not a valid host name.
    InvalidHost { error: HostError },
}

/// The mathematical value of a `ParseError`: its kind and the text it carries.
pub enum ParseErrorView {
    Unmatched(Seq<char>),
    MalformedIp(Seq<char>),
    SuspiciousIp(Seq<char>),
    InvalidHost(Seq<char>),
}

impl View for ParseError {
    type V = ParseErrorView;

    open spec fn view(&self) -> ParseErrorView {
        match self {
            ParseError::Unmatched { line } => ParseErrorView::Unmatched(line@),
            ParseError::MalformedIp { ip } => ParseErrorView::MalformedIp(ip@),
            ParseError::SuspiciousIp { ip } => ParseErrorView::SuspiciousIp(ip@),
            ParseError::InvalidHost { error } => ParseErrorView::InvalidHost(error.value@),
        }
    }
}

/// The mathematical value of the outcome for one line.
pub open spec fn result_view(r: Result<Host, ParseError>) -> Result<Seq<char>, ParseErrorView> {
    match r {
        Ok(h) => Ok(h@),
        Err(e) => Err(e@),
    }
}

/// A host word, accepted when it is a valid host name.
pub open spec fn check_host(h: Seq<char>) -> Result<Seq<char>, ParseErrorView> {
    if valid_host(h) {
        Ok(h)
    } else {
        Err(ParseErrorView::InvalidHost(h))
    }
}

/// The outcome for a read line, given the kind of its leading address (unused when it has
/// none): a loopback address drops the line, the unspecified address or none keeps its host,
/// any other address is an error.
pub open spec fn resolve_spec(l: LineView, k: IpKind) -> Option<Result<Seq<char>, ParseErrorView>> {
    match l {
        LineView::Unmatched { text } => Some(Err(ParseErrorView::Unmatched(text))),
        LineView::Entry { ip, host } => match ip {
            None => Some(check_host(host)),
            Some(a) => match k {
                IpKind::Unspecified => Some(check_host(host)),
                IpKind::Loopback => None,
                IpKind::Other => Some(Err(ParseErrorView::SuspiciousIp(a))),
                IpKind::Malformed => Some(Err(ParseErrorView::MalformedIp(a))),
            },
        },
    }
}

/// The outcomes for read lines, each with the kind of its address, leaving out dropped lines.
pub open spec fn resolve_all_spec(ls: Seq<LineView>, ks: Seq<IpKind>) -> Seq<
    Result<Seq<char>, ParseErrorView>,
>
    decreases ls.len(),
{
    if ls.len() == 0 || ks.len() == 0 {
        Seq::empty()
    } else {
        resolve_all_spec(ls.drop_last(), ks.drop_last()) + opt_seq(
            resolve_spec(ls.last(), ks.last()),
        )
    }
}

fn copy_string(s: &String) -> (r: String)
    ensures
        r@ == s@,
{
    s.clone()
}

impl Line {
    /// The leading address word, if any.
    pub fn ip(&self) -> (r: Option<&str>)
        ensures
            match self@ {
                LineView::Entry { ip: Some(a), .. } => r matches Some(x) && x@ == a,
                _ => r is None,
            },
    {
        match self {
            Line::Entry { ip: Some(a), .. } => Some(a.as_str()),
            _ => None,
        }
    }

    /// The outcome for this line, given the kind of its leading address.
    pub fn resolve(&self, kind: IpKind) -> (r: Option<Result<Host, ParseError>>)
        ensures
            match r {
                Some(x) => resolve_spec(self@, kind) == Some(result_view(x)),
                None => resolve_spec(self@, kind) is None,
            },
    {
        match self {
            Line::Unmatched { text } => Some(Err(ParseError::Unmatched { line: copy_string(text) })),
            Line::Entry { ip, host } => {
                if let Some(a) = ip {
                    match kind {
                        IpKind::Unspecified => {},
                        IpKind::Loopback => {
                            return None;
                        },
                        IpKind::Other => {
                            return Some(Err(ParseError::SuspiciousIp { ip: copy_string(a) }));
                        },
                        IpKind::Malformed => {
                            return Some(Err(ParseError::MalformedIp { ip: copy_string(a) }));
                        },
                    }
                }
                match Host::try_from(copy_string(host)) {
                    Ok(h) => Some(Ok(h)),
                    Err(e) => Some(Err(ParseError::InvalidHost { error: e })),
                }
            },
        }
    }
}

/// The outcomes for read lines, `kinds[i]` judging the address of `lines[i]`; dropped lines
/// leave no outcome.
pub fn resolve_all(lines: &Vec<Line>, kinds: &Vec<IpKind>) -> (r: Vec<Result<Host, ParseError>>)
    requires
        kinds.len() == lines.len(),
    ensures
        r@.map_values(|x: Result<Host, ParseError>| result_view(x)) == resolve_all_spec(
            lines@.map_values(|l: Line| l@),
            kinds@,
        ),
{
    let mut out: Vec<Result<Host, ParseError>> = Vec::new();
    let mut i: usize = 0;
    let ghost lv = lines@.map_values(|l: Line| l@);
    assert(out@.map_values(|x: Result<Host, ParseError>| result_view(x)) =~= Seq::<
        Result<Seq<char>, ParseErrorView>,
    >::empty());
    while i < lines.len()
        invariant
            kinds.len() == lines.len(),
            lv == lines@.map_values(|l: Line| l@),
            i <= lines.len(),
            out@.map_values(|x: Result<Host, ParseError>| result_view(x)) == resolve_all_spec(
                lv.subrange(0, i as int),
                kinds@.subrange(0, i as int),
            ),
        decreases lines.len() - i,
    {
        let ghost old_out = out@.map_values(|x: Result<Host, ParseError>| result_view(x));
        assert(lv.subrange(0, i + 1).drop_last() =~= lv.subrange(0, i as int));
        assert(kinds@.subrange(0, i + 1).drop_last() =~= kinds@.subrange(0, i as int));
        assert(lv.subrange(0, i + 1).last() == lines@[i as int]@);
        match lines[i].resolve(kinds[i]) {
            Some(x) => {
                out.push(x);
                assert(out@.map_values(|x: Result<Host, ParseError>| result_view(x)) =~= old_out.push(
                    result_view(x),
                ));
            },
            None => {
                assert(old_out + Seq::<Result<Seq<char>, ParseErrorView>>::empty() =~= old_out);
            },
        }
        i = i + 1;
    }
    assert(lv.subrange(0, i as int) =~= lv);
    assert(kinds@.subrange(0, i as int) =~= kinds@);
    out
}

impl ParseError {
    /// A message for the error, with the text it carries.
    pub fn message(&self) -> (r: String)
        ensures
            r@ == match self@ {
                ParseErrorView::Unmatched(t) => "Failed parsing blocklist entry \""@ + t + "\""@,
                ParseErrorView::MalformedIp(a) => "Malformed ip: "@ + a,
                ParseErrorView::SuspiciousIp(a) => "Suspicious ip "@ + a,
                ParseErrorView::InvalidHost(h) => h + " is not a valid domain name"@,
            },
    {
        match self {
            ParseError::Unmatched { line } => {
                let mut r = String::new();
                r.append("Failed parsing blocklist entry \"");
                r.append(line.as_str());
                r.append("\"");
                r
            },
            ParseError::MalformedIp { ip } => {
                let mut r = String::new();
                r.append("Malformed ip: ");
                r.append(ip.as_str());
                r
            },
            ParseError::SuspiciousIp { ip } => {
                let mut r = String::new();
                r.append("Suspicious ip ");
                r.append(ip.as_str());
                r
            },
            ParseError::InvalidHost { error } => error.message(),
        }
    }
}

proof fn lemma_blank_words(t: Seq<char>)
    requires
        forall|i: int| 0 <= i < t.len() ==> is_white_space(#[trigger] t[i]),
    ensures
        words(t).len() == 0,
    decreases t.len(),
{
    if t.len() > 0 {
        lemma_blank_words(t.drop_last());
    }
}

proof fn lemma_split_single_line(l: Seq<char>)
    requires
        !l.contains('\n'),
    ensures
        split_lines(l) == seq![l],
    decreases l.len(),
{
    if l.len() > 0 {
        assert(!l.drop_last().contains('\n')) by {
            if l.drop_last().contains('\n') {
                let k = choose|k: int| 0 <= k < l.drop_last().len() && l.drop_last()[k] == '\n';
                assert(l[k] == '\n');
            }
        }
        lemma_split_single_line(l.drop_last());
        assert(l.last() != '\n') by {
            assert(l[l.len() - 1] == l.last());
        }
        assert(l.drop_last().push(l.last()) =~= l);
    }
}

/// A line that is all comment or white space reads as nothing, and as a whole text yields no
/// outcome.
pub proof fn lemma_blank_line_says_nothing(l: Seq<char>)
    requires
        forall|i: int|
            0 <= i < strip_comment(l).len() ==> is_white_space(#[trigger] strip_comment(l)[i]),
    ensures
        line_shape(l) is None,
        !l.contains('\n') ==> scan_spec(l) == Seq::<LineView>::empty(),
{
    lemma_blank_words(strip_comment(l));
    if !l.contains('\n') {
        lemma_split_single_line(l);
        let p = split_lines(l);
        assert(p.drop_last().map_values(|x: Seq<char>| drop_cr(x)) =~= Seq::<Seq<char>>::empty());
        assert(text_lines(l) =~= seq![l]);
        assert(seq![l].drop_last() =~= Seq::<Seq<char>>::empty());
        assert(shapes(Seq::<Seq<char>>::empty()) == Seq::<LineView>::empty());
        assert(shapes(seq![l]) == shapes(seq![l].drop_last()) + opt_seq(line_shape(l)));
        assert(scan_spec(l) =~= Seq::<LineView>::empty());
    }
}

} // verus!
