//! The node body parser: a state machine over trimmed lines that opens
//! a node at `@name`, rejects duplicate names, classifies lines inside
//! a node as branch options or content, coalesces runs of plain lines
//! into text with embedded `${var}` and `!{call -> r1, r2}` markers
//! extracted, and resolves option destinations against the validated
//! dependency set.

use vstd::prelude::*;

use crate::model::{
    lemma_nt_has_push, lemma_nt_wf_push, nt_has, nt_wf, ContentModel, DestModel, NodeModel,
    OptionModel,
};
use crate::parser::{bad_ext_msg, ends_bdl, undeclared_msg, BdlParser};
use crate::text::{
    chars_to_string, doc_lines, eq_str, find_in, has_prefix, has_prefix_str, idx_of,
    lemma_skip_one, split_trimmed, split_trimmed_exec, str_to_chars, subvec, to_lines, trim_s,
    trim_vec, vviews,
};
use crate::types::{
    content_views, err_text, BdlBranchOption, BdlCondition, BdlContentElement, BdlDestination,
    BdlError, BdlNode, DepSet, NodeTable,
};

verus! {

// ---------------------------------------------------------------------------
// Error kinds of the body parser
// ---------------------------------------------------------------------------

#[verifier::ext_equal]
pub ghost enum ErrKind {
    KParse,
    KNode,
    KDep,
}

/// The executable error carries the kind the model names.
pub open spec fn err_matches(e: BdlError, k: ErrKind) -> bool {
    match k {
        ErrKind::KParse => e is ParseError,
        ErrKind::KNode => e is NodeError,
        ErrKind::KDep => e is DependencyError,
    }
}

// ---------------------------------------------------------------------------
// Content markers
// ---------------------------------------------------------------------------

/// Index of the first `}` or line break; markers do not span lines, so
/// a line break before the closing brace leaves a marker unclosed.
pub open spec fn idx_close(s: Seq<char>) -> int
    decreases s.len(),
{
    if s.len() == 0 {
        0
    } else if s[0] == '}' || s[0] == '\n' {
        0
    } else {
        1 + idx_close(s.drop_first())
    }
}

pub proof fn lemma_idx_close_is(s: Seq<char>, k: int)
    requires
        0 <= k <= s.len(),
        forall|j: int| 0 <= j < k ==> s[j] != '}' && s[j] != '\n',
        k < s.len() ==> (s[k] == '}' || s[k] == '\n'),
    ensures
        idx_close(s) == k,
    decreases k,
{
    if s.len() > 0 && !(s[0] == '}' || s[0] == '\n') {
        lemma_idx_close_is(s.drop_first(), k - 1);
    }
}

/// Index of the first `->`; `s.len()` if absent.
pub open spec fn idx_arrow(s: Seq<char>) -> int
    decreases s.len(),
{
    if s.len() < 2 {
        s.len() as int
    } else if s[0] == '-' && s[1] == '>' {
        0
    } else {
        1 + idx_arrow(s.drop_first())
    }
}

pub proof fn lemma_idx_arrow_found(s: Seq<char>, k: int)
    requires
        0 <= k,
        k + 2 <= s.len(),
        forall|j: int| 0 <= j < k ==> !((#[trigger] s[j]) == '-' && s[j + 1] == '>'),
        s[k] == '-' && s[k + 1] == '>',
    ensures
        idx_arrow(s) == k,
    decreases k,
{
    if k > 0 {
        assert(forall|j: int|
            0 <= j < k - 1 ==> (#[trigger] s.drop_first()[j]) == s[j + 1] && s.drop_first()[j + 1]
                == s[j + 2]);
        lemma_idx_arrow_found(s.drop_first(), k - 1);
    }
}

pub proof fn lemma_idx_arrow_none(s: Seq<char>)
    requires
        forall|j: int| 0 <= j && j + 2 <= s.len() ==> !((#[trigger] s[j]) == '-' && s[j + 1] == '>'),
    ensures
        idx_arrow(s) == s.len(),
    decreases s.len(),
{
    if s.len() >= 2 {
        assert(forall|j: int|
            0 <= j && j + 2 <= s.len() - 1 ==> (#[trigger] s.drop_first()[j]) == s[j + 1]
                && s.drop_first()[j + 1] == s[j + 2]);
        lemma_idx_arrow_none(s.drop_first());
    }
}

/// The function-call marker's interior: the name before an optional
/// `->`, and the comma-separated result variables after it.
pub open spec fn call_model(inner: Seq<char>) -> ContentModel {
    let a = idx_arrow(inner);
    if a + 2 <= inner.len() {
        ContentModel::CCall {
            name: trim_s(inner.take(a)),
            results: split_trimmed(inner.skip(a + 2), ','),
        }
    } else {
        ContentModel::CCall { name: trim_s(inner), results: Seq::empty() }
    }
}

/// The marker opening at the head of `s`, with the count of characters
/// it spans; `None` when `s` opens with no complete marker.
pub open spec fn marker_at(s: Seq<char>) -> Option<(ContentModel, int)> {
    if has_prefix(s, "${"@) {
        let rest = s.skip(2);
        let j = idx_close(rest);
        if j < rest.len() && rest[j] == '}' {
            Some((ContentModel::CVar(trim_s(rest.take(j))), j + 3))
        } else {
            None
        }
    } else if has_prefix(s, "!{"@) {
        let rest = s.skip(2);
        let j = idx_close(rest);
        if j < rest.len() && rest[j] == '}' {
            Some((call_model(rest.take(j)), j + 3))
        } else {
            None
        }
    } else {
        None
    }
}

pub open spec fn emit_text(pending: Seq<char>) -> Seq<ContentModel> {
    if pending.len() == 0 {
        Seq::empty()
    } else {
        seq![ContentModel::CText(pending)]
    }
}

/// Lexical extraction of markers from a run of content text: complete
/// markers become elements of their own, everything else accumulates
/// into text elements between them.
pub open spec fn tok(s: Seq<char>, pending: Seq<char>) -> Seq<ContentModel>
    decreases s.len(),
{
    if s.len() == 0 {
        emit_text(pending)
    } else {
        match marker_at(s) {
            Some(p) => {
                if 0 < p.1 <= s.len() {
                    emit_text(pending) + seq![p.0] + tok(s.skip(p.1), Seq::empty())
                } else {
                    tok(s.drop_first(), pending.push(s[0]))
                }
            },
            None => tok(s.drop_first(), pending.push(s[0])),
        }
    }
}

// ---------------------------------------------------------------------------
// Option lines
// ---------------------------------------------------------------------------

/// An option destination: the literal `exit`, a same-file node
/// `@name` with a non-empty name, or a cross-file target
/// `[file.bdl:node]` whose file must be a validated dependency.
/// Errors carry their text: the offending destination for a malformed
/// one, or the cause-naming dependency message.
pub open spec fn dest_model(d: Seq<char>, deps: Seq<Seq<char>>) -> Result<
    DestModel,
    (ErrKind, Seq<char>),
> {
    if d == "exit"@ {
        Ok(DestModel::DExit)
    } else if d.len() > 0 && d[0] == '@' {
        if trim_s(d.drop_first()).len() == 0 {
            Err((ErrKind::KParse, d))
        } else {
            Ok(DestModel::DNode(trim_s(d.drop_first())))
        }
    } else if d.len() >= 2 && d[0] == '[' && d.last() == ']' {
        let inner = d.subrange(1, d.len() - 1);
        let j = idx_of(inner, ':');
        if j == inner.len() {
            Err((ErrKind::KParse, d))
        } else {
            let file = trim_s(inner.take(j));
            let node = trim_s(inner.skip(j + 1));
            if !ends_bdl(file) {
                Err((ErrKind::KDep, bad_ext_msg(file)))
            } else if !deps.contains(file) {
                Err((ErrKind::KDep, undeclared_msg(file)))
            } else {
                Ok(DestModel::DFile { file, node })
            }
        }
    } else {
        Err((ErrKind::KParse, d))
    }
}

/// The braced part of an option line: `{kw1|kw2: destination}`.
pub open spec fn braced_model(s: Seq<char>, cond: Option<Seq<char>>, deps: Seq<Seq<char>>) -> Result<
    OptionModel,
    (ErrKind, Seq<char>),
> {
    if s.len() >= 2 && s[0] == '{' && s.last() == '}' {
        let body = s.subrange(1, s.len() - 1);
        let j = idx_of(body, ':');
        if j == body.len() {
            Err((ErrKind::KParse, s))
        } else {
            let kws = split_trimmed(body.take(j), '|');
            match dest_model(trim_s(body.skip(j + 1)), deps) {
                Ok(d) => Ok(OptionModel { keywords: kws, dest: d, cond }),
                Err(k) => Err(k),
            }
        }
    } else {
        Err((ErrKind::KParse, s))
    }
}

/// A whole option line: unconditional `{...}`, or conditional
/// `?{var}{...}` whose condition variable sits in the first braces.
pub open spec fn option_model(line: Seq<char>, deps: Seq<Seq<char>>) -> Result<
    OptionModel,
    (ErrKind, Seq<char>),
> {
    if has_prefix(line, "?{"@) {
        let rest = line.skip(2);
        let j = idx_of(rest, '}');
        if j == rest.len() {
            Err((ErrKind::KParse, line))
        } else {
            let cvar = trim_s(rest.take(j));
            braced_model(trim_s(rest.skip(j + 1)), Some(cvar), deps)
        }
    } else {
        braced_model(line, None, deps)
    }
}

// ---------------------------------------------------------------------------
// The node scan, one line at a time
// ---------------------------------------------------------------------------

/// State of the body scan: the closed nodes, the open node, the
/// pending run of content text, and, when an error ended the scan, its
/// kind with the text the resulting error carries.
#[verifier::ext_equal]
pub ghost struct NodesScan {
    pub done: Seq<NodeModel>,
    pub cur: Option<NodeModel>,
    pub run: Seq<char>,
    pub err: Option<(ErrKind, Seq<char>)>,
}

pub open spec fn nodes_start() -> NodesScan {
    NodesScan { done: Seq::empty(), cur: None, run: Seq::empty(), err: None }
}

/// Close the pending content run: its extracted elements join the open
/// node's content.
pub open spec fn flush_run(st: NodesScan) -> NodesScan {
    match st.cur {
        Some(c) => {
            if st.run.len() > 0 {
                NodesScan {
                    cur: Some(
                        NodeModel { content: c.content + tok(st.run, Seq::empty()), ..c },
                    ),
                    run: Seq::empty(),
                    ..st
                }
            } else {
                st
            }
        },
        None => NodesScan { run: Seq::empty(), ..st },
    }
}

/// Close the open node: flush its run and move it into the results.
pub open spec fn close_cur(st: NodesScan) -> NodesScan {
    let f = flush_run(st);
    match f.cur {
        Some(c) => NodesScan { done: f.done.push(c), cur: None, ..f },
        None => f,
    }
}

/// One trimmed line of the body scan.
pub open spec fn nodes_step(st: NodesScan, line: Seq<char>, deps: Seq<Seq<char>>) -> NodesScan {
    if st.err is Some {
        st
    } else if line.len() == 0 || line[0] == '#' {
        flush_run(st)
    } else if line[0] == '@' {
        let cl = close_cur(st);
        let name = trim_s(line.drop_first());
        if name.len() == 0 {
            NodesScan { err: Some((ErrKind::KParse, line)), ..cl }
        } else if nt_has(cl.done, name) {
            NodesScan { err: Some((ErrKind::KNode, name)), ..cl }
        } else {
            NodesScan {
                cur: Some(NodeModel { name, content: Seq::empty(), options: Seq::empty() }),
                ..cl
            }
        }
    } else {
        match st.cur {
            None => st,
            Some(c) => {
                if line[0] == '{' || has_prefix(line, "?{"@) {
                    let f = flush_run(st);
                    match option_model(line, deps) {
                        Ok(o) => match f.cur {
                            Some(fc) => NodesScan {
                                cur: Some(NodeModel { options: fc.options.push(o), ..fc }),
                                ..f
                            },
                            None => f,
                        },
                        Err(k) => NodesScan { err: Some(k), ..f },
                    }
                } else {
                    NodesScan {
                        run: if st.run.len() == 0 {
                            line
                        } else {
                            st.run + seq!['\n'] + line
                        },
                        ..st
                    }
                }
            },
        }
    }
}

pub open spec fn nodes_scan(st: NodesScan, lines: Seq<Seq<char>>, deps: Seq<Seq<char>>) -> NodesScan
    decreases lines.len(),
{
    if lines.len() == 0 {
        st
    } else {
        nodes_scan(nodes_step(st, lines[0], deps), lines.drop_first(), deps)
    }
}

/// The nodes carried by a document text, against the given validated
/// dependency set.
pub open spec fn nodes_result(text: Seq<char>, deps: Seq<Seq<char>>) -> Result<
    Seq<NodeModel>,
    (ErrKind, Seq<char>),
> {
    let sc = nodes_scan(nodes_start(), doc_lines(text), deps);
    match sc.err {
        Some(k) => Err(k),
        None => Ok(close_cur(sc).done),
    }
}

/// A failed state is final: the scan changes nothing after it.
pub proof fn lemma_nodes_scan_failed(st: NodesScan, lines: Seq<Seq<char>>, deps: Seq<Seq<char>>)
    requires
        st.err is Some,
    ensures
        nodes_scan(st, lines, deps) == st,
    decreases lines.len(),
{
    if lines.len() > 0 {
        lemma_nodes_scan_failed(st, lines.drop_first(), deps);
    }
}


// ---------------------------------------------------------------------------
// The executable tokenizer
// ---------------------------------------------------------------------------

/// The marker opening at position `i` of `v`, if any, with the count
/// of characters it spans.
fn marker_test(v: &Vec<char>, i: usize) -> (r: Option<(BdlContentElement, usize)>)
    requires
        i < v@.len(),
    ensures
        match r {
            Some(p) => {
                &&& marker_at(v@.skip(i as int)) matches Some(q) && q.0 == p.0@ && q.1 == p.1
                    as int
                &&& 0 < p.1
                &&& i + p.1 <= v@.len()
            },
            None => marker_at(v@.skip(i as int)) is None,
        },
{
    let ghost s = v@.skip(i as int);
    proof {
        reveal_strlit("${");
        reveal_strlit("!{");
    }
    let n = v.len();
    let c0 = v[i];
    let is_var = c0 == '$' && i + 1 < n && v[i + 1] == '{';
    let is_call = c0 == '!' && i + 1 < n && v[i + 1] == '{';
    if !is_var && !is_call {
        proof {
            assert(s[0] == c0);
            if has_prefix(s, "${"@) {
                assert(s.take(2)[0] == s[0] && s.take(2)[1] == s[1]);
                assert(s[0] == '$' && s[1] == '{');
                assert(s[1] == v@[i + 1]);
                assert(false);
            }
            if has_prefix(s, "!{"@) {
                assert(s.take(2)[0] == s[0] && s.take(2)[1] == s[1]);
                assert(s[0] == '!' && s[1] == '{');
                assert(s[1] == v@[i + 1]);
                assert(false);
            }
        }
        return None;
    }
    proof {
        assert(s[0] == c0 && s[1] == v@[i + 1]);
        if is_var {
            assert(s.take(2) =~= "${"@);
        } else {
            assert(s.take(2) =~= "!{"@);
        }
    }
    let mut j: usize = i + 2;
    while j < n && v[j] != '}' && v[j] != '\n'
        invariant
            i + 2 <= j <= n,
            n == v@.len(),
            forall|x: int| i + 2 <= x < j ==> v@[x] != '}' && v@[x] != '\n',
        decreases n - j,
    {
        j += 1;
    }
    let ghost rest = s.skip(2);
    proof {
        assert(rest =~= v@.skip(i + 2));
        assert(forall|x: int| 0 <= x < rest.len() ==> rest[x] == v@[i + 2 + x]);
        lemma_idx_close_is(rest, j - i - 2);
    }
    if j == n || v[j] == '\n' {
        return None;
    }
    let inner = subvec(v, i + 2, j);
    proof {
        assert(inner@ =~= rest.take(j - i - 2));
    }
    if is_var {
        let namev = trim_vec(&inner);
        let e = BdlContentElement::Variable(chars_to_string(&namev));
        proof {
            assert(e@ == ContentModel::CVar(trim_s(rest.take(j - i - 2))));
        }
        Some((e, j + 1 - i))
    } else {
        let m = inner.len();
        let mut a: usize = 0;
        while a < m && a + 1 < m && !(inner[a] == '-' && inner[a + 1] == '>')
            invariant
                0 <= a <= m,
                m == inner@.len(),
                forall|x: int|
                    0 <= x < a ==> !((#[trigger] inner@[x]) == '-' && inner@[x + 1] == '>'),
            decreases m - a,
        {
            a += 1;
        }
        let e: BdlContentElement;
        if a + 1 < m {
            proof {
                lemma_idx_arrow_found(inner@, a as int);
            }
            let namepart = trim_vec(&subvec(&inner, 0, a));
            let respart = subvec(&inner, a + 2, m);
            let result_vars = split_trimmed_exec(&respart, ',');
            proof {
                assert(respart@ =~= inner@.skip(a + 2));
            }
            e = BdlContentElement::FunctionCall {
                name: chars_to_string(&namepart),
                result_vars,
            };
            proof {
                assert(namepart@ =~= trim_s(inner@.take(a as int)));
                assert(e@ == call_model(rest.take(j - i - 2)));
            }
        } else {
            proof {
                assert(forall|x: int|
                    0 <= x && x + 2 <= m ==> !((#[trigger] inner@[x]) == '-' && inner@[x + 1]
                        == '>'));
                lemma_idx_arrow_none(inner@);
            }
            let namev = trim_vec(&inner);
            let rv: Vec<String> = Vec::new();
            proof {
                assert(rv.deep_view() =~= Seq::<Seq<char>>::empty());
            }
            e = BdlContentElement::FunctionCall { name: chars_to_string(&namev), result_vars: rv };
            proof {
                assert(e@ == call_model(rest.take(j - i - 2)));
            }
        }
        Some((e, j + 1 - i))
    }
}

/// Extract the content elements of one run of content text.
fn tokenize_run(v: &Vec<char>) -> (r: Vec<BdlContentElement>)
    ensures
        content_views(r@) == tok(v@, Seq::empty()),
{
    let n = v.len();
    let mut out: Vec<BdlContentElement> = Vec::new();
    let mut pending: Vec<char> = Vec::new();
    let mut i: usize = 0;
    proof {
        assert(v@.skip(0) =~= v@);
        assert(content_views(out@) + tok(v@, Seq::empty()) =~= tok(v@, Seq::empty()));
    }
    while i < n
        invariant
            0 <= i <= n,
            n == v@.len(),
            content_views(out@) + tok(v@.skip(i as int), pending@) == tok(v@, Seq::empty()),
        decreases n - i,
    {
        let ghost spre = v@.skip(i as int);
        match marker_test(v, i) {
            Some(pair) => {
                let (e, k) = pair;
                proof {
                    assert(spre.skip(k as int) =~= v@.skip(i + k));
                    assert(tok(spre, pending@) == emit_text(pending@) + seq![e@] + tok(
                        v@.skip(i + k),
                        Seq::empty(),
                    ));
                }
                if pending.len() > 0 {
                    let t = chars_to_string(&pending);
                    let ghost prev = out@;
                    out.push(BdlContentElement::Text(t));
                    proof {
                        assert(content_views(out@) =~= content_views(prev) + emit_text(
                            pending@,
                        ));
                    }
                    pending = Vec::new();
                } else {
                    proof {
                        assert(content_views(out@) + emit_text(pending@) =~= content_views(
                            out@,
                        ));
                    }
                }
                let ghost prev2 = out@;
                out.push(e);
                proof {
                    assert(content_views(out@) =~= content_views(prev2).push(e@));
                    assert(content_views(out@) + tok(v@.skip(i + k), Seq::empty()) =~= tok(
                        v@,
                        Seq::empty(),
                    ));
                    assert(pending@ =~= Seq::<char>::empty());
                }
                i += k;
            },
            None => {
                proof {
                    lemma_skip_one(v@, i as int);
                    assert(spre[0] == v@[i as int]);
                    assert(tok(spre, pending@) == tok(
                        v@.skip(i + 1),
                        pending@.push(v@[i as int]),
                    ));
                }
                pending.push(v[i]);
                i += 1;
            },
        }
    }
    proof {
        assert(v@.skip(n as int) =~= Seq::<char>::empty());
        assert(tok(Seq::<char>::empty(), pending@) == emit_text(pending@));
    }
    if pending.len() > 0 {
        let t = chars_to_string(&pending);
        let ghost prev = out@;
        out.push(BdlContentElement::Text(t));
        proof {
            assert(content_views(out@) =~= content_views(prev) + emit_text(pending@));
        }
    } else {
        proof {
            assert(content_views(out@) + emit_text(pending@) =~= content_views(out@));
        }
    }
    out
}

// ---------------------------------------------------------------------------
// Flushing a run into the open node
// ---------------------------------------------------------------------------

pub open spec fn opt_view(c: &Option<BdlNode>) -> Option<NodeModel> {
    match c {
        Some(n) => Some(n@),
        None => None,
    }
}

/// The open node after a non-empty run was closed into it.
pub open spec fn flushed(c0: Option<NodeModel>, c1: Option<NodeModel>, run: Seq<char>) -> bool {
    match (c0, c1) {
        (Some(a), Some(b)) => b == (NodeModel {
            content: a.content + tok(run, Seq::empty()),
            ..a
        }),
        (None, None) => true,
        _ => false,
    }
}


/// Close the pending run: its elements join the open node's content
/// and the run empties.
fn flush_take(cur: Option<BdlNode>, run: Vec<char>) -> (r: (Option<BdlNode>, Vec<char>))
    ensures
        r.1@.len() == 0,
        (run@.len() == 0 ==> opt_view(&r.0) == opt_view(&cur)),
        (run@.len() > 0 ==> flushed(opt_view(&cur), opt_view(&r.0), run@)),
{
    let mut cur2 = cur;
    let mut run2 = run;
    if run2.len() > 0 {
        match &mut cur2 {
            Some(c) => {
                let mut elems = tokenize_run(&run2);
                let ghost c0 = c@;
                let ghost ev = elems@;
                c.content.append(&mut elems);
                proof {
                    assert(content_views(c.content@) =~= c0.content + content_views(ev));
                    assert(c@ =~= NodeModel {
                        content: c0.content + tok(run2@, Seq::empty()),
                        ..c0
                    });
                }
            },
            None => {},
        }
        run2.clear();
    } else {
        proof {
            assert(run2@ =~= Seq::<char>::empty());
        }
    }
    (cur2, run2)
}


// ---------------------------------------------------------------------------
// The executable option parsers
// ---------------------------------------------------------------------------

impl BdlParser {
    /// Resolve one destination text.
    fn parse_dest(&self, d: &Vec<char>, dependencies: &DepSet) -> (r: Result<
        BdlDestination,
        BdlError,
    >)
        ensures
            match r {
                Ok(o) => dest_model(d@, dependencies@) matches Ok(m) && o@ == m,
                Err(e) => dest_model(d@, dependencies@) matches Err(p) && err_matches(e, p.0)
                    && err_text(e) == p.1,
            },
    {
        let n = d.len();
        if eq_str(d, "exit") {
            Ok(BdlDestination::Exit)
        } else if n > 0 && d[0] == '@' {
            let nm = trim_vec(&subvec(d, 1, n));
            proof {
                assert(d@.subrange(1, n as int) =~= d@.drop_first());
            }
            if nm.len() == 0 {
                return Err(BdlError::ParseError(chars_to_string(d)));
            }
            Ok(BdlDestination::Node(chars_to_string(&nm)))
        } else if n >= 2 && d[0] == '[' && d[n - 1] == ']' {
            let inner = subvec(d, 1, n - 1);
            let j = find_in(&inner, ':');
            if j == inner.len() {
                return Err(BdlError::ParseError(chars_to_string(d)));
            }
            let filev = trim_vec(&subvec(&inner, 0, j));
            let nodev = trim_vec(&subvec(&inner, j + 1, inner.len()));
            proof {
                assert(inner@.subrange(0, j as int) =~= inner@.take(j as int));
                assert(inner@.subrange(j + 1, inner@.len() as int) =~= inner@.skip(j + 1));
            }
            let files = chars_to_string(&filev);
            self.validate_file_transfer(files.as_str(), dependencies)?;
            Ok(BdlDestination::FileTransfer { file: files, node: chars_to_string(&nodev) })
        } else {
            Err(BdlError::ParseError(chars_to_string(d)))
        }
    }

    /// Parse the braced part of an option line.
    fn parse_braced(&self, s: &Vec<char>, cond: Option<String>, dependencies: &DepSet) -> (r:
        Result<BdlBranchOption, BdlError>)
        ensures
            ({
                let cv = match cond {
                    Some(c) => Some(c@),
                    None => None,
                };
                match r {
                    Ok(o) => braced_model(s@, cv, dependencies@) matches Ok(m) && o@ == m,
                    Err(e) => braced_model(s@, cv, dependencies@) matches Err(p) && err_matches(
                        e,
                        p.0,
                    ) && err_text(e) == p.1,
                }
            }),
    {
        let n = s.len();
        if !(n >= 2 && s[0] == '{' && s[n - 1] == '}') {
            return Err(BdlError::ParseError(chars_to_string(s)));
        }
        let body = subvec(s, 1, n - 1);
        let j = find_in(&body, ':');
        if j == body.len() {
            return Err(BdlError::ParseError(chars_to_string(s)));
        }
        let kwpart = subvec(&body, 0, j);
        proof {
            assert(kwpart@ =~= body@.take(j as int));
        }
        let keywords = split_trimmed_exec(&kwpart, '|');
        let destv = trim_vec(&subvec(&body, j + 1, body.len()));
        proof {
            assert(body@.subrange(j + 1, body@.len() as int) =~= body@.skip(j + 1));
        }
        let dest = self.parse_dest(&destv, dependencies)?;
        let ghost cv = match cond {
            Some(ref c) => Some(c@),
            None => None,
        };
        let condition = match cond {
            Some(c) => Some(BdlCondition { variable: c }),
            None => None,
        };
        let o = BdlBranchOption { keywords, destination: dest, condition };
        proof {
            assert(o@ =~= (braced_model(s@, cv, dependencies@))->Ok_0);
        }
        Ok(o)
    }

    /// Parse one option line against the validated dependency set:
    /// `{kw1|kw2: destination}`, or `?{var}{kw1|kw2: destination}` for
    /// a conditional option.  An error carries the offending text, or
    /// the cause-naming dependency message.
    pub fn parse_option(&self, line: &str, dependencies: &DepSet) -> (r: Result<
        BdlBranchOption,
        BdlError,
    >)
        ensures
            match r {
                Ok(o) => option_model(line@, dependencies@) matches Ok(m) && o@ == m,
                Err(e) => option_model(line@, dependencies@) matches Err(p) && err_matches(
                    e,
                    p.0,
                ) && err_text(e) == p.1,
            },
    {
        let chars = str_to_chars(line);
        self.parse_option_vec(&chars, dependencies)
    }

    /// Parse one option line given as characters.
    fn parse_option_vec(&self, v: &Vec<char>, dependencies: &DepSet) -> (r: Result<
        BdlBranchOption,
        BdlError,
    >)
        ensures
            match r {
                Ok(o) => option_model(v@, dependencies@) matches Ok(m) && o@ == m,
                Err(e) => option_model(v@, dependencies@) matches Err(p) && err_matches(e, p.0)
                    && err_text(e) == p.1,
            },
    {
        if has_prefix_str(v, "?{") {
            proof {
                reveal_strlit("?{");
            }
            let rest = subvec(v, 2, v.len());
            proof {
                assert(rest@ =~= v@.skip(2));
            }
            let j = find_in(&rest, '}');
            if j == rest.len() {
                return Err(BdlError::ParseError(chars_to_string(v)));
            }
            let cvar = trim_vec(&subvec(&rest, 0, j));
            let after = trim_vec(&subvec(&rest, j + 1, rest.len()));
            proof {
                assert(rest@.subrange(0, j as int) =~= rest@.take(j as int));
                assert(rest@.subrange(j + 1, rest@.len() as int) =~= rest@.skip(j + 1));
            }
            self.parse_braced(&after, Some(chars_to_string(&cvar)), dependencies)
        } else {
            self.parse_braced(v, None, dependencies)
        }
    }
}


// ---------------------------------------------------------------------------
// The executable node parser
// ---------------------------------------------------------------------------

impl BdlParser {
    /// Parse the node bodies of the document against the validated
    /// dependency set.  On success the table holds every node of the
    /// text under its unique name, content and options in source
    /// order; an empty or duplicate node name, a malformed option
    /// line or an undeclared file-transfer target fails the parse with
    /// the matching error kind, its text fixed by the scan: the
    /// offending line or name, or the cause-naming dependency message.
    pub fn parse_nodes(&self, dependencies: &DepSet) -> (r: Result<NodeTable, BdlError>)
        ensures
            match r {
                Ok(t) => nodes_result(self@, dependencies@) matches Ok(m) && t@ == m && nt_wf(
                    t@,
                ),
                Err(e) => nodes_result(self@, dependencies@) matches Err(p) && err_matches(
                    e,
                    p.0,
                ) && err_text(e) == p.1,
            },
    {
        let lines = to_lines(self.content_ref().as_str());
        let ghost lv = doc_lines(self@);
        let ghost dv = dependencies@;
        let mut done = NodeTable::new();
        let mut cur: Option<BdlNode> = None;
        let mut run: Vec<char> = Vec::new();
        let n = lines.len();
        let mut i: usize = 0;
        proof {
            assert(lv.skip(0) =~= lv);
            assert(NodesScan { done: done@, cur: opt_view(&cur), run: run@, err: None }
                =~= nodes_start());
        }
        while i < n
            invariant
                0 <= i <= n,
                n == lines@.len(),
                vviews(lines@) == lv,
                lv == doc_lines(self@),
                dv == dependencies@,
                nt_wf(done@),
                (match &cur {
                    Some(c) => !nt_has(done@, c@.name),
                    None => true,
                }),
                (cur is None ==> run@.len() == 0),
                nodes_scan(nodes_start(), lv, dv) == nodes_scan(
                    NodesScan { done: done@, cur: opt_view(&cur), run: run@, err: None },
                    lv.skip(i as int),
                    dv,
                ),
            decreases n - i,
        {
            let ghost st = NodesScan { done: done@, cur: opt_view(&cur), run: run@, err: None };
            let ghost line = lv[i as int];
            proof {
                assert(lv.skip(i as int)[0] == line);
                lemma_skip_one(lv, i as int);
            }
            let lineref = &lines[i];
            proof {
                assert(lineref@ == line);
            }
            if lineref.len() == 0 || lineref[0] == '#' {
                let tmp = flush_take(cur, run);
                cur = tmp.0;
                run = tmp.1;
                proof {
                    assert(NodesScan { done: done@, cur: opt_view(&cur), run: run@, err: None }
                        =~= flush_run(st));
                    assert(NodesScan { done: done@, cur: opt_view(&cur), run: run@, err: None }
                        =~= nodes_step(st, line, dv));
                }
            } else if lineref[0] == '@' {
                let tmp = flush_take(cur, run);
                run = tmp.1;
                let prev = tmp.0;
                let ghost fst = flush_run(st);
                proof {
                    assert(NodesScan { done: done@, cur: opt_view(&prev), run: run@, err: None }
                        =~= fst);
                }
                match prev {
                    Some(c) => {
                        proof {
                            lemma_nt_wf_push(done@, c@);
                        }
                        done.push_node(c);
                    },
                    None => {},
                }
                cur = None;
                let ghost cl = close_cur(st);
                proof {
                    assert(NodesScan { done: done@, cur: opt_view(&cur), run: run@, err: None }
                        =~= cl);
                }
                let namev = trim_vec(&subvec(lineref, 1, lineref.len()));
                proof {
                    assert(lineref@.subrange(1, lineref@.len() as int) =~= line.drop_first());
                }
                let names = chars_to_string(&namev);
                if namev.len() == 0 {
                    proof {
                        let est = nodes_step(st, line, dv);
                        assert(est =~= NodesScan { err: Some((ErrKind::KParse, line)), ..cl });
                        lemma_nodes_scan_failed(est, lv.skip(i + 1), dv);
                    }
                    return Err(BdlError::ParseError(chars_to_string(lineref)));
                }
                if done.contains_key(names.as_str()) {
                    proof {
                        let est = nodes_step(st, line, dv);
                        assert(est =~= NodesScan {
                            err: Some((ErrKind::KNode, names@)),
                            ..cl
                        });
                        lemma_nodes_scan_failed(est, lv.skip(i + 1), dv);
                    }
                    return Err(BdlError::NodeError(names));
                }
                cur = Some(BdlNode::new(names));
                proof {
                    assert(NodesScan { done: done@, cur: opt_view(&cur), run: run@, err: None }
                        =~= nodes_step(st, line, dv));
                }
            } else if cur.is_some() {
                if lineref[0] == '{' || has_prefix_str(lineref, "?{") {
                    let tmp = flush_take(cur, run);
                    cur = tmp.0;
                    run = tmp.1;
                    let ghost fst = flush_run(st);
                    proof {
                        assert(NodesScan { done: done@, cur: opt_view(&cur), run: run@, err: None }
                            =~= fst);
                    }
                    match self.parse_option_vec(lineref, dependencies) {
                        Ok(o) => {
                            match &mut cur {
                                Some(c) => {
                                    let ghost fc = c@;
                                    c.add_option(o);
                                    proof {
                                        assert(c@ =~= NodeModel {
                                            options: fc.options.push(o@),
                                            ..fc
                                        });
                                    }
                                },
                                None => {},
                            }
                            proof {
                                assert(NodesScan {
                                    done: done@,
                                    cur: opt_view(&cur),
                                    run: run@,
                                    err: None,
                                } =~= nodes_step(st, line, dv));
                            }
                        },
                        Err(e) => {
                            proof {
                                let est = nodes_step(st, line, dv);
                                assert(est.err is Some);
                                assert(err_matches(e, (est.err->0).0));
                                assert(err_text(e) == (est.err->0).1);
                                lemma_nodes_scan_failed(est, lv.skip(i + 1), dv);
                            }
                            return Err(e);
                        },
                    }
                } else {
                    if run.len() == 0 {
                        run.extend_from_slice(lineref.as_slice());
                        proof {
                            assert(run@ =~= line);
                        }
                    } else {
                        run.push('\n');
                        run.extend_from_slice(lineref.as_slice());
                        proof {
                            assert(run@ =~= st.run + seq!['\n'] + line);
                        }
                    }
                    proof {
                        assert(NodesScan { done: done@, cur: opt_view(&cur), run: run@, err: None }
                            =~= nodes_step(st, line, dv));
                    }
                }
            } else {
                proof {
                    assert(NodesScan { done: done@, cur: opt_view(&cur), run: run@, err: None }
                        =~= nodes_step(st, line, dv));
                }
            }
            i += 1;
        }
        proof {
            assert(lv.skip(n as int) =~= Seq::<Seq<char>>::empty());
        }
        let ghost sc = NodesScan { done: done@, cur: opt_view(&cur), run: run@, err: None };
        let tmp = flush_take(cur, run);
        let prev = tmp.0;
        let ghost fst = flush_run(sc);
        proof {
            assert(NodesScan { done: done@, cur: opt_view(&prev), run: tmp.1@, err: None }
                =~= fst);
        }
        match prev {
            Some(c) => {
                proof {
                    lemma_nt_wf_push(done@, c@);
                }
                done.push_node(c);
            },
            None => {},
        }
        proof {
            assert(done@ =~= close_cur(sc).done);
        }
        Ok(done)
    }
}


// ---------------------------------------------------------------------------
// The unique-names law
// ---------------------------------------------------------------------------

/// The invariant the body scan keeps: closed names are pairwise
/// distinct and non-empty, and the open node's name is non-empty and
/// none of them.
pub open spec fn scan_names_ok(st: NodesScan) -> bool {
    &&& nt_wf(st.done)
    &&& forall|i: int| 0 <= i < st.done.len() ==> (#[trigger] st.done[i]).name.len() > 0
    &&& match st.cur {
        Some(c) => !nt_has(st.done, c.name) && c.name.len() > 0,
        None => true,
    }
}

proof fn lemma_step_names(st: NodesScan, line: Seq<char>, deps: Seq<Seq<char>>)
    requires
        scan_names_ok(st),
    ensures
        scan_names_ok(nodes_step(st, line, deps)),
{
    let r = nodes_step(st, line, deps);
    if st.err is Some {
    } else if line.len() == 0 || line[0] == '#' {
    } else if line[0] == '@' {
        let f = flush_run(st);
        match f.cur {
            Some(c) => {
                lemma_nt_wf_push(f.done, c);
                lemma_nt_has_push(f.done, c, trim_s(line.drop_first()));
                assert(forall|i: int|
                    0 <= i < f.done.len() ==> f.done.push(c)[i] == (#[trigger] f.done[i]));
                assert(f.done.push(c)[f.done.len() as int] == c);
            },
            None => {},
        }
    } else {
    }
}

proof fn lemma_scan_names(st: NodesScan, lines: Seq<Seq<char>>, deps: Seq<Seq<char>>)
    requires
        scan_names_ok(st),
    ensures
        scan_names_ok(nodes_scan(st, lines, deps)),
    decreases lines.len(),
{
    if lines.len() > 0 {
        lemma_step_names(st, lines[0], deps);
        lemma_scan_names(nodes_step(st, lines[0], deps), lines.drop_first(), deps);
    }
}

/// One name, one node, every name real: whenever full-text parsing
/// succeeds, the node names of the result are pairwise distinct and
/// non-empty — a duplicate or empty header name in the text is
/// rejected, never merged, overwritten or defaulted.  The incremental
/// path keeps the duplicate promise through `BdlDocument::add_node`,
/// whose contract rejects a present name.
pub proof fn lemma_parse_nodes_unique_names(text: Seq<char>, deps: Seq<Seq<char>>)
    ensures
        nodes_result(text, deps) matches Ok(ns) ==> nt_wf(ns) && forall|i: int|
            0 <= i < ns.len() ==> (#[trigger] ns[i]).name.len() > 0,
{
    lemma_scan_names(nodes_start(), doc_lines(text), deps);
    let sc = nodes_scan(nodes_start(), doc_lines(text), deps);
    if sc.err is None {
        let f = flush_run(sc);
        match f.cur {
            Some(c) => {
                lemma_nt_wf_push(f.done, c);
                assert(forall|i: int|
                    0 <= i < f.done.len() ==> f.done.push(c)[i] == (#[trigger] f.done[i]));
                assert(f.done.push(c)[f.done.len() as int] == c);
            },
            None => {},
        }
    }
}


/// A line that opens a node.
pub open spec fn is_header(l: Seq<char>) -> bool {
    l.len() > 0 && l[0] == '@'
}

/// The name a header line declares.
pub open spec fn header_name(l: Seq<char>) -> Seq<char> {
    trim_s(l.drop_first())
}

/// The scan never loses sight of a name it has seen: once a node of
/// that name is closed, open, or the scan has failed, that stays so.
pub open spec fn tracks(st: NodesScan, n: Seq<char>) -> bool {
    st.err is Some || nt_has(st.done, n) || (match st.cur {
        Some(c) => c.name == n,
        None => false,
    })
}

proof fn lemma_step_tracks(st: NodesScan, line: Seq<char>, deps: Seq<Seq<char>>, n: Seq<char>)
    requires
        tracks(st, n),
    ensures
        tracks(nodes_step(st, line, deps), n),
{
    let r = nodes_step(st, line, deps);
    if st.err is Some {
    } else if line.len() == 0 || line[0] == '#' {
    } else if line[0] == '@' {
        let f = flush_run(st);
        match f.cur {
            Some(c) => {
                lemma_nt_has_push(f.done, c, n);
            },
            None => {},
        }
    } else {
    }
}

proof fn lemma_header_tracked_fails(
    st: NodesScan,
    lines: Seq<Seq<char>>,
    deps: Seq<Seq<char>>,
    j: int,
)
    requires
        0 <= j < lines.len(),
        is_header(lines[j]),
        tracks(st, header_name(lines[j])),
    ensures
        nodes_scan(st, lines, deps).err is Some,
    decreases lines.len(),
{
    let n = header_name(lines[j]);
    if st.err is Some {
        lemma_nodes_scan_failed(st, lines, deps);
    } else if j == 0 {
        let f = flush_run(st);
        match f.cur {
            Some(c) => {
                lemma_nt_has_push(f.done, c, n);
            },
            None => {},
        }
        let st2 = nodes_step(st, lines[0], deps);
        assert(st2.err is Some);
        lemma_nodes_scan_failed(st2, lines.drop_first(), deps);
    } else {
        lemma_step_tracks(st, lines[0], deps, n);
        lemma_header_tracked_fails(nodes_step(st, lines[0], deps), lines.drop_first(), deps, j - 1);
    }
}

proof fn lemma_dup_header_fails(
    st: NodesScan,
    lines: Seq<Seq<char>>,
    deps: Seq<Seq<char>>,
    i: int,
    j: int,
)
    requires
        0 <= i < j < lines.len(),
        is_header(lines[i]),
        is_header(lines[j]),
        header_name(lines[i]) == header_name(lines[j]),
    ensures
        nodes_scan(st, lines, deps).err is Some,
    decreases i,
{
    if st.err is Some {
        lemma_nodes_scan_failed(st, lines, deps);
    } else if i == 0 {
        let st2 = nodes_step(st, lines[0], deps);
        if st2.err is Some {
            lemma_nodes_scan_failed(st2, lines.drop_first(), deps);
        } else {
            assert(tracks(st2, header_name(lines[0])));
            lemma_header_tracked_fails(st2, lines.drop_first(), deps, j - 1);
        }
    } else {
        lemma_dup_header_fails(nodes_step(st, lines[0], deps), lines.drop_first(), deps, i - 1, j - 1);
    }
}

/// The other face of the unique-names law: a document whose body
/// declares the same node name under two headers never parses.
pub proof fn lemma_duplicate_node_header_rejected(
    text: Seq<char>,
    deps: Seq<Seq<char>>,
    i: int,
    j: int,
)
    requires
        0 <= i < j < doc_lines(text).len(),
        is_header(doc_lines(text)[i]),
        is_header(doc_lines(text)[j]),
        header_name(doc_lines(text)[i]) == header_name(doc_lines(text)[j]),
    ensures
        nodes_result(text, deps) is Err,
{
    lemma_dup_header_fails(nodes_start(), doc_lines(text), deps, i, j);
}

} // verus!
