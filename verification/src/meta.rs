//! The metadata header: scanning the leading run of comment lines for
//! the recognized `key: value` fields, and writing a metadata value
//! back out as such a header.

use vstd::prelude::*;

use crate::model::{meta_empty, MetaModel};
use crate::parser::BdlParser;
use crate::text::{
    chars_to_string, doc_lines, drop_hashes, eq_ci, eq_ci_str, find_in, idx_of, is_space_c,
    join_c, join_vec, lemma_idx_of_is, lemma_join_snoc, lemma_skip_one, lemma_split_join,
    lemma_trim_stable, lemma_trimmed_parts, trim_back, trim_front, lemma_idx_of, lemma_vviews_push, no_char, split_c, split_trimmed,
    split_vec, str_to_chars, strip_hashes, subvec, to_lines, trim_s, trim_vec, trimmed, vviews,
};
use crate::types::{BdlError, BdlMetadata};

verus! {

// ---------------------------------------------------------------------------
// The header scan, one line at a time
// ---------------------------------------------------------------------------

/// State of the header scan: the fields gathered so far, and whether a
/// non-empty, non-comment line has ended the header.
#[verifier::ext_equal]
pub ghost struct MetaScan {
    pub m: MetaModel,
    pub stopped: bool,
}

pub open spec fn scan_start() -> MetaScan {
    MetaScan { m: meta_empty(), stopped: false }
}

/// The declared dependency list: the raw value split on commas, each
/// piece trimmed; empty pieces are preserved as empty names.
pub open spec fn req_list(v: Seq<char>) -> Seq<Seq<char>> {
    split_trimmed(v, ',')
}

/// One trimmed line of the header scan.  A blank line is skipped; the
/// first other line not opening with the comment marker stops the scan;
/// a comment without a colon is skipped; otherwise the text after the
/// leading comment markers is split at the first colon, the key is
/// matched case-insensitively against the recognized names, and an
/// unknown key is skipped.
pub open spec fn meta_step(st: MetaScan, line: Seq<char>) -> MetaScan {
    if st.stopped {
        st
    } else if line.len() == 0 {
        st
    } else if line[0] != '#' {
        MetaScan { stopped: true, ..st }
    } else if idx_of(line, ':') == line.len() {
        st
    } else {
        let body = trim_s(drop_hashes(line));
        let j = idx_of(body, ':');
        if j == body.len() {
            st
        } else {
            let key = trim_s(body.take(j));
            let val = trim_s(body.skip(j + 1));
            if eq_ci(key, "topic"@) {
                MetaScan { m: MetaModel { topic: Some(val), ..st.m }, ..st }
            } else if eq_ci(key, "description"@) {
                MetaScan { m: MetaModel { description: Some(val), ..st.m }, ..st }
            } else if eq_ci(key, "author"@) {
                MetaScan { m: MetaModel { author: Some(val), ..st.m }, ..st }
            } else if eq_ci(key, "version"@) {
                MetaScan { m: MetaModel { version: Some(val), ..st.m }, ..st }
            } else if eq_ci(key, "required"@) {
                MetaScan { m: MetaModel { required: Some(req_list(val)), ..st.m }, ..st }
            } else {
                st
            }
        }
    }
}

pub open spec fn meta_scan(st: MetaScan, lines: Seq<Seq<char>>) -> MetaScan
    decreases lines.len(),
{
    if lines.len() == 0 {
        st
    } else {
        meta_scan(meta_step(st, lines[0]), lines.drop_first())
    }
}

/// The metadata carried by a document text.
pub open spec fn meta_of(text: Seq<char>) -> MetaModel {
    meta_scan(scan_start(), doc_lines(text)).m
}

// ---------------------------------------------------------------------------
// The executable parser
// ---------------------------------------------------------------------------

impl BdlParser {
    /// Extract the metadata header.  Absent fields stay `None`; the
    /// call never fails.
    pub fn parse_metadata(&self) -> (r: Result<BdlMetadata, BdlError>)
        ensures
            r matches Ok(m) && m@ == meta_of(self@),
    {
        let lines = to_lines(self.content_ref().as_str());
        let ghost lv = doc_lines(self@);
        let mut meta = BdlMetadata::default();
        let mut stopped = false;
        let n = lines.len();
        let mut i: usize = 0;
        assert(lv.skip(0) =~= lv);
        assert(MetaScan { m: meta@, stopped: stopped } =~= scan_start());
        while i < n
            invariant
                0 <= i <= n,
                n == lines@.len(),
                vviews(lines@) == lv,
                meta_scan(scan_start(), lv) == meta_scan(
                    MetaScan { m: meta@, stopped: stopped },
                    lv.skip(i as int),
                ),
            decreases n - i,
        {
            let ghost st = MetaScan { m: meta@, stopped: stopped };
            let ghost line = lv[i as int];
            proof {
                assert(lv.skip(i as int)[0] == line);
                lemma_skip_one(lv, i as int);
            }
            let lineref = &lines[i];
            proof {
                assert(lineref@ == line);
            }
            if stopped {
            } else if lineref.len() == 0 {
            } else if lineref[0] != '#' {
                stopped = true;
            } else if find_in(lineref, ':') == lineref.len() {
            } else {
                let h = strip_hashes(lineref);
                let stripped = subvec(lineref, h, lineref.len());
                proof {
                    assert(stripped@ =~= line.skip(h as int));
                }
                let body = trim_vec(&stripped);
                let j = find_in(&body, ':');
                if j == body.len() {
                } else {
                    let keyv = subvec(&body, 0, j);
                    let valv = subvec(&body, j + 1, body.len());
                    proof {
                        assert(keyv@ =~= body@.take(j as int));
                        assert(valv@ =~= body@.skip(j + 1));
                    }
                    let key = trim_vec(&keyv);
                    let val = trim_vec(&valv);
                    if eq_ci_str(&key, "topic") {
                        meta.topic = Some(chars_to_string(&val));
                    } else if eq_ci_str(&key, "description") {
                        meta.description = Some(chars_to_string(&val));
                    } else if eq_ci_str(&key, "author") {
                        meta.author = Some(chars_to_string(&val));
                    } else if eq_ci_str(&key, "version") {
                        meta.version = Some(chars_to_string(&val));
                    } else if eq_ci_str(&key, "required") {
                        let parts = split_vec(&val, ',');
                        let pn = parts.len();
                        let ghost rl = req_list(val@);
                        proof {
                            assert(rl.len() == pn);
                        }
                        let mut req: Vec<String> = Vec::new();
                        let mut k: usize = 0;
                        while k < pn
                            invariant
                                0 <= k <= pn,
                                pn == parts@.len(),
                                vviews(parts@) == split_c(val@, ','),
                                rl == req_list(val@),
                                req.deep_view() =~= rl.take(k as int),
                            decreases pn - k,
                        {
                            proof {
                                assert(rl[k as int] == trim_s(vviews(parts@)[k as int]));
                                assert(vviews(parts@)[k as int] == parts@[k as int]@);
                            }
                            let t = trim_vec(&parts[k]);
                            let ghost prev = req.deep_view();
                            let ghost prevv = req@;
                            let sv = chars_to_string(&t);
                            req.push(sv);
                            proof {
                                assert(req@ == prevv.push(sv));
                                assert(prev.len() == k);
                                assert(prevv.len() == k);
                                assert forall|x: int| 0 <= x < k + 1 implies req.deep_view()[x]
                                    == rl.take(k + 1)[x] by {
                                    assert(rl.take(k + 1)[x] == rl[x]);
                                    assert(req.deep_view()[x] == req@[x]@);
                                    if x < k {
                                        assert(prev[x] == rl.take(k as int)[x]);
                                        assert(prev[x] == prevv[x]@);
                                        assert(req@[x] == prevv[x]);
                                    } else {
                                        assert(req@[x] == sv);
                                        assert(sv@ == t@);
                                    }
                                }
                                assert(req.deep_view().len() == k + 1);
                                assert(req.deep_view() =~= rl.take(k + 1));
                            }
                            k += 1;
                        }
                        assert(req.deep_view() =~= rl);
                        meta.required = Some(req);
                    }
                }
            }
            proof {
                assert(MetaScan { m: meta@, stopped: stopped } =~= meta_step(st, line));
            }
            i += 1;
        }
        proof {
            assert(lv.skip(n as int) =~= Seq::<Seq<char>>::empty());
        }
        Ok(meta)
    }
}


// ---------------------------------------------------------------------------
// Writing a header back out
// ---------------------------------------------------------------------------

/// One serialized header line: the comment marker, the key, a colon,
/// and the value after one space (no space when the value is empty).
pub open spec fn mk_meta_line(key: Seq<char>, v: Seq<char>) -> Seq<char> {
    seq!['#', ' '] + key + seq![':'] + (if v.len() == 0 {
        Seq::<char>::empty()
    } else {
        seq![' '] + v
    })
}

pub open spec fn field_lines(key: Seq<char>, o: Option<Seq<char>>) -> Seq<Seq<char>> {
    match o {
        None => Seq::empty(),
        Some(v) => seq![mk_meta_line(key, v)],
    }
}

pub open spec fn req_lines(o: Option<Seq<Seq<char>>>) -> Seq<Seq<char>> {
    match o {
        None => Seq::empty(),
        Some(l) => seq![mk_meta_line("required"@, join_c(l, ','))],
    }
}

/// The serialized header lines, one per present field, in fixed order.
pub open spec fn header_lines(m: MetaModel) -> Seq<Seq<char>> {
    field_lines("topic"@, m.topic) + field_lines("description"@, m.description) + field_lines(
        "author"@,
        m.author,
    ) + field_lines("version"@, m.version) + req_lines(m.required)
}

/// The serialized header text.
pub open spec fn header_text(m: MetaModel) -> Seq<char> {
    join_c(header_lines(m), '\n')
}

/// Build one header line.
fn make_line(key: &str, v: &Vec<char>) -> (r: Vec<char>)
    ensures
        r@ == mk_meta_line(key@, v@),
{
    let mut r: Vec<char> = Vec::new();
    r.push('#');
    r.push(' ');
    let kc = str_to_chars(key);
    r.extend_from_slice(kc.as_slice());
    r.push(':');
    if v.len() > 0 {
        r.push(' ');
        r.extend_from_slice(v.as_slice());
    }
    assert(r@ =~= mk_meta_line(key@, v@));
    r
}

impl BdlMetadata {
    /// Write the metadata back out as a header: one comment line per
    /// present field, in the order topic, description, author,
    /// version, required; the dependency list joined with commas.
    pub fn to_header(&self) -> (r: String)
        ensures
            r@ == header_text(self@),
    {
        let mut lines: Vec<Vec<char>> = Vec::new();
        let ghost m = self@;
        proof {
            assert(vviews(lines@) =~= Seq::<Seq<char>>::empty());
        }
        match &self.topic {
            Some(t) => {
                let ghost prev = lines@;
                lines.push(make_line("topic", &str_to_chars(t.as_str())));
                proof {
                    lemma_vviews_push(prev, lines@[lines@.len() - 1]);
                }
            },
            None => {},
        }
        proof {
            assert(vviews(lines@) =~= field_lines("topic"@, m.topic));
        }
        match &self.description {
            Some(t) => {
                let ghost prev = lines@;
                lines.push(make_line("description", &str_to_chars(t.as_str())));
                proof {
                    lemma_vviews_push(prev, lines@[lines@.len() - 1]);
                }
            },
            None => {},
        }
        proof {
            assert(vviews(lines@) =~= field_lines("topic"@, m.topic) + field_lines(
                "description"@,
                m.description,
            ));
        }
        match &self.author {
            Some(t) => {
                let ghost prev = lines@;
                lines.push(make_line("author", &str_to_chars(t.as_str())));
                proof {
                    lemma_vviews_push(prev, lines@[lines@.len() - 1]);
                }
            },
            None => {},
        }
        match &self.version {
            Some(t) => {
                let ghost prev = lines@;
                lines.push(make_line("version", &str_to_chars(t.as_str())));
                proof {
                    lemma_vviews_push(prev, lines@[lines@.len() - 1]);
                }
            },
            None => {},
        }
        proof {
            assert(vviews(lines@) =~= field_lines("topic"@, m.topic) + field_lines(
                "description"@,
                m.description,
            ) + field_lines("author"@, m.author) + field_lines("version"@, m.version));
        }
        match &self.required {
            Some(l) => {
                let ln = l.len();
                let ghost lv = l.deep_view();
                proof {
                    assert(lv.len() == ln);
                }
                let mut parts: Vec<Vec<char>> = Vec::new();
                let mut k: usize = 0;
                proof {
                    assert(vviews(parts@) =~= lv.take(0));
                }
                while k < ln
                    invariant
                        0 <= k <= ln,
                        ln == l@.len(),
                        lv == l.deep_view(),
                        vviews(parts@) =~= lv.take(k as int),
                    decreases ln - k,
                {
                    let ghost prev = parts@;
                    parts.push(str_to_chars(l[k].as_str()));
                    proof {
                        lemma_vviews_push(prev, parts@[parts@.len() - 1]);
                        assert(lv[k as int] == l@[k as int]@);
                        assert(vviews(parts@) =~= lv.take(k + 1));
                    }
                    k += 1;
                }
                proof {
                    assert(vviews(parts@) =~= lv);
                }
                let joined = join_vec(&parts, ',');
                let ghost prev = lines@;
                lines.push(make_line("required", &joined));
                proof {
                    lemma_vviews_push(prev, lines@[lines@.len() - 1]);
                }
            },
            None => {},
        }
        proof {
            assert(vviews(lines@) =~= header_lines(m));
        }
        let all = join_vec(&lines, '\n');
        chars_to_string(&all)
    }
}


// ---------------------------------------------------------------------------
// The header round trip
// ---------------------------------------------------------------------------

/// A field value that a header can carry faithfully: no surrounding
/// whitespace and no line break.
pub open spec fn field_ok(o: Option<Seq<char>>) -> bool {
    match o {
        None => true,
        Some(v) => trimmed(v) && no_char(v, '\n'),
    }
}

/// Dependency names a header can carry faithfully: each trimmed, free
/// of line breaks and commas, and at least one name declared.
pub open spec fn req_ok(o: Option<Seq<Seq<char>>>) -> bool {
    match o {
        None => true,
        Some(l) => l.len() > 0 && forall|i: int|
            0 <= i < l.len() ==> trimmed(#[trigger] l[i]) && no_char(l[i], '\n') && no_char(
                l[i],
                ',',
            ),
    }
}

/// A metadata value whose header round-trips field-wise.
pub open spec fn meta_wf(m: MetaModel) -> bool {
    field_ok(m.topic) && field_ok(m.description) && field_ok(m.author) && field_ok(m.version)
        && req_ok(m.required)
}

/// How one serialized line parses: it is stable under trimming, opens
/// with the comment marker, and splits back into exactly its key and
/// value.
proof fn lemma_meta_line_parse(key: Seq<char>, v: Seq<char>)
    requires
        key.len() > 0,
        !is_space_c(key[0]),
        !is_space_c(key.last()),
        key[0] != '#',
        no_char(key, ':'),
        no_char(key, '\n'),
        trimmed(v),
        no_char(v, '\n'),
    ensures
        ({
            let line = mk_meta_line(key, v);
            let body = trim_s(drop_hashes(line));
            let j = idx_of(body, ':');
            &&& trimmed(line)
            &&& no_char(line, '\n')
            &&& line.len() > 0
            &&& line[0] == '#'
            &&& idx_of(line, ':') < line.len()
            &&& 0 <= j < body.len()
            &&& trim_s(body.take(j)) == key
            &&& trim_s(body.skip(j + 1)) == v
        }),
{
    let kl = key.len() as int;
    let line = mk_meta_line(key, v);
    let tail = if v.len() == 0 {
        Seq::<char>::empty()
    } else {
        seq![' '] + v
    };
    let w = key + seq![':'] + tail;
    assert(line =~= seq!['#', ' '] + w);
    if v.len() > 0 {
        lemma_trimmed_parts(v);
    }
    // character map of the line
    assert(line[0] == '#' && line[1] == ' ');
    assert(forall|i: int| 0 <= i < kl ==> line[2 + i] == key[i]);
    assert(line[2 + kl] == ':');
    assert(v.len() > 0 ==> line[3 + kl] == ' ');
    assert(forall|i: int| 0 <= i < v.len() ==> line[4 + kl + i] == v[i]);
    assert(no_char(line, '\n'));
    // trimming leaves the line fixed
    if v.len() > 0 {
        assert(line.last() == v.last());
    } else {
        assert(line.last() == ':');
    }
    lemma_trim_stable(line);
    // the comment markers strip to exactly one character
    assert(line.drop_first() =~= seq![' '] + w);
    assert(drop_hashes(line) == drop_hashes(line.drop_first()));
    assert((seq![' '] + w)[0] == ' ');
    assert(drop_hashes(seq![' '] + w) == seq![' '] + w);
    // trimming the stripped text yields the key/value body
    assert(w[0] == key[0]);
    assert((seq![' '] + w).drop_first() =~= w);
    assert(trim_front(seq![' '] + w) == trim_front(w));
    assert(trim_front(w) == w);
    if v.len() > 0 {
        assert(w.last() == v.last());
    } else {
        assert(w.last() == ':');
    }
    assert(trim_back(w) == w);
    let body = trim_s(drop_hashes(line));
    assert(body == w);
    // the first colon separates key from value
    assert(forall|i: int| 0 <= i < kl ==> w[i] == key[i] && w[i] != ':');
    assert(w[kl] == ':');
    lemma_idx_of_is(w, ':', kl);
    assert(w.take(kl) =~= key);
    lemma_trim_stable(key);
    assert(w.skip(kl + 1) =~= tail);
    if v.len() == 0 {
        assert(trim_s(tail) =~= v);
    } else {
        assert(tail[0] == ' ');
        assert(tail.drop_first() =~= v);
        assert(trim_front(tail) == trim_front(v));
        assert(trim_front(v) == v);
        assert(trim_back(v) == v);
    }
    // the whole line holds a colon
    lemma_idx_of(line, ':');
    assert(idx_of(line, ':') < line.len()) by {
        if idx_of(line, ':') == line.len() {
            assert(line[2 + kl] != ':');
        }
    }
}

/// Folding distributes over concatenation of line groups.
proof fn lemma_meta_scan_append(st: MetaScan, a: Seq<Seq<char>>, b: Seq<Seq<char>>)
    ensures
        meta_scan(st, a + b) == meta_scan(meta_scan(st, a), b),
    decreases a.len(),
{
    if a.len() == 0 {
        assert(a + b =~= b);
    } else {
        assert((a + b)[0] == a[0]);
        assert((a + b).drop_first() =~= a.drop_first() + b);
        lemma_meta_scan_append(meta_step(st, a[0]), a.drop_first(), b);
    }
}

/// What the scan makes of one serialized field line.
proof fn lemma_scan_one(st: MetaScan, key: Seq<char>, v: Seq<char>)
    requires
        !st.stopped,
        key.len() > 0,
        !is_space_c(key[0]),
        !is_space_c(key.last()),
        key[0] != '#',
        no_char(key, ':'),
        no_char(key, '\n'),
        trimmed(v),
        no_char(v, '\n'),
    ensures
        ({
            let r = meta_step(st, mk_meta_line(key, v));
            &&& !r.stopped
            &&& r == meta_step_keyed(st, key, v)
        }),
{
    lemma_meta_line_parse(key, v);
}

/// The field assignment a key/value pair induces on the scan state.
pub open spec fn meta_step_keyed(st: MetaScan, key: Seq<char>, v: Seq<char>) -> MetaScan {
    if eq_ci(key, "topic"@) {
        MetaScan { m: MetaModel { topic: Some(v), ..st.m }, ..st }
    } else if eq_ci(key, "description"@) {
        MetaScan { m: MetaModel { description: Some(v), ..st.m }, ..st }
    } else if eq_ci(key, "author"@) {
        MetaScan { m: MetaModel { author: Some(v), ..st.m }, ..st }
    } else if eq_ci(key, "version"@) {
        MetaScan { m: MetaModel { version: Some(v), ..st.m }, ..st }
    } else if eq_ci(key, "required"@) {
        MetaScan { m: MetaModel { required: Some(req_list(v)), ..st.m }, ..st }
    } else {
        st
    }
}

/// Joining trimmed, comma-free names gives a value that splits back
/// into exactly those names.
#[verifier::rlimit(60)]
proof fn lemma_join_comma(l: Seq<Seq<char>>)
    requires
        l.len() > 0,
        forall|i: int|
            0 <= i < l.len() ==> trimmed(#[trigger] l[i]) && no_char(l[i], '\n') && no_char(
                l[i],
                ',',
            ),
    ensures
        trimmed(join_c(l, ',')),
        no_char(join_c(l, ','), '\n'),
        req_list(join_c(l, ',')) == l,
    decreases l.len(),
{
    let w = join_c(l, ',');
    if l.len() == 1 {
        assert(w == l[0]);
        lemma_split_join(l, ',');
        assert(req_list(w) =~= l);
    } else {
        let rest = join_c(l.drop_first(), ',');
        assert(forall|i: int|
            0 <= i < l.drop_first().len() ==> trimmed(#[trigger] l.drop_first()[i]) && no_char(
                l.drop_first()[i],
                '\n',
            ) && no_char(l.drop_first()[i], ','));
        lemma_join_comma(l.drop_first());
        assert(w == l[0] + seq![','] + rest);
        // no line break anywhere
        assert(no_char(w, '\n')) by {
            assert(forall|i: int| 0 <= i < l[0].len() ==> w[i] == l[0][i]);
            assert(w[l[0].len() as int] == ',');
            assert(forall|i: int|
                0 <= i < rest.len() ==> w[l[0].len() + 1 + i] == rest[i]);
        }
        // stable under trimming: both ends are non-space
        if l[0].len() > 0 {
            lemma_trimmed_parts(l[0]);
            assert(w[0] == l[0][0]);
        } else {
            assert(w[0] == ',');
        }
        lemma_trimmed_parts(rest);
        if rest.len() > 0 {
            assert(w.last() == rest.last());
        } else {
            assert(w.last() == ',');
        }
        lemma_trim_stable(w);
        lemma_split_join(l, ',');
        assert(req_list(w) =~= l);
    }
}

/// The header round trip: serializing any well-formed metadata and
/// parsing the result yields the same metadata, field for field, for
/// any subset of the recognized fields present.
pub proof fn lemma_metadata_header_round_trip(m: MetaModel)
    requires
        meta_wf(m),
    ensures
        meta_of(header_text(m)) == m,
{
    reveal_strlit("topic");
    reveal_strlit("description");
    reveal_strlit("author");
    reveal_strlit("version");
    reveal_strlit("required");
    let la = field_lines("topic"@, m.topic);
    let lb = field_lines("description"@, m.description);
    let lc = field_lines("author"@, m.author);
    let ld = field_lines("version"@, m.version);
    let le = req_lines(m.required);
    let lines = header_lines(m);
    if lines.len() == 0 {
        assert(m.topic is None && m.description is None && m.author is None && m.version is None
            && m.required is None);
        let w = header_text(m);
        assert(w =~= Seq::<char>::empty());
        lemma_idx_of_is(w, '\n', 0);
        assert(split_c(w, '\n') =~= seq![w]);
        assert(doc_lines(w) =~= seq![trim_s(w)]);
        assert(trim_s(w) =~= Seq::<char>::empty());
        assert(doc_lines(w)[0] == trim_s(w));
        assert(doc_lines(w).drop_first() =~= Seq::<Seq<char>>::empty());
        assert(meta_scan(meta_step(scan_start(), trim_s(w)), Seq::<Seq<char>>::empty())
            == meta_step(scan_start(), trim_s(w)));
        assert(meta_scan(scan_start(), doc_lines(w)) == meta_step(scan_start(), trim_s(w)));
        assert(m =~= meta_empty());
    } else {
        // every line is one serialized field line
        if m.required is Some {
            lemma_join_comma(m.required->0);
        }
        assert forall|i: int| 0 <= i < lines.len() implies trimmed(#[trigger] lines[i])
            && no_char(lines[i], '\n') by {
            lemma_header_line_good(m, i);
        }
        // the text splits back into the lines
        lemma_split_join(lines, '\n');
        assert(doc_lines(header_text(m)) =~= lines) by {
            assert(forall|i: int|
                0 <= i < lines.len() ==> doc_lines(header_text(m))[i] == trim_s(
                    #[trigger] lines[i],
                ));
        }
        // fold the five groups in order
        lemma_meta_scan_append(scan_start(), la, lb + lc + ld + le);
        let s1 = meta_scan(scan_start(), la);
        lemma_meta_scan_append(s1, lb, lc + ld + le);
        let s2 = meta_scan(s1, lb);
        lemma_meta_scan_append(s2, lc, ld + le);
        let s3 = meta_scan(s2, lc);
        lemma_meta_scan_append(s3, ld, le);
        let s4 = meta_scan(s3, ld);
        let s5 = meta_scan(s4, le);
        assert(lines =~= la + (lb + lc + ld + le));
        assert(lb + lc + ld + le =~= lb + (lc + ld + le));
        assert(lc + ld + le =~= lc + (ld + le));
        assert(meta_scan(scan_start(), lines) == s5);
        lemma_scan_group_topic(scan_start(), m.topic);
        lemma_scan_group_description(s1, m.description);
        lemma_scan_group_author(s2, m.author);
        lemma_scan_group_version(s3, m.version);
        lemma_scan_group_required(s4, m.required);
        assert(s5.m =~= m);
    }
}

/// Each serialized line is trimmed and free of line breaks.
proof fn lemma_header_line_good(m: MetaModel, i: int)
    requires
        meta_wf(m),
        0 <= i < header_lines(m).len(),
    ensures
        trimmed(header_lines(m)[i]),
        no_char(header_lines(m)[i], '\n'),
{
    reveal_strlit("topic");
    reveal_strlit("description");
    reveal_strlit("author");
    reveal_strlit("version");
    reveal_strlit("required");
    let la = field_lines("topic"@, m.topic);
    let lb = field_lines("description"@, m.description);
    let lc = field_lines("author"@, m.author);
    let ld = field_lines("version"@, m.version);
    let le = req_lines(m.required);
    let lines = header_lines(m);
    lemma_key_facts();
    if i < la.len() {
        assert(lines[i] == mk_meta_line("topic"@, m.topic->0));
        lemma_meta_line_parse("topic"@, m.topic->0);
    } else if i < la.len() + lb.len() {
        assert(lines[i] == mk_meta_line("description"@, m.description->0));
        lemma_meta_line_parse("description"@, m.description->0);
    } else if i < la.len() + lb.len() + lc.len() {
        assert(lines[i] == mk_meta_line("author"@, m.author->0));
        lemma_meta_line_parse("author"@, m.author->0);
    } else if i < la.len() + lb.len() + lc.len() + ld.len() {
        assert(lines[i] == mk_meta_line("version"@, m.version->0));
        lemma_meta_line_parse("version"@, m.version->0);
    } else {
        let l = m.required->0;
        lemma_join_comma(l);
        assert(lines[i] == mk_meta_line("required"@, join_c(l, ',')));
        lemma_meta_line_parse("required"@, join_c(l, ','));
    }
}

/// The recognized keys are lower-case, non-blank words.
proof fn lemma_key_facts()
    ensures
        key_good("topic"@),
        key_good("description"@),
        key_good("author"@),
        key_good("version"@),
        key_good("required"@),
{
    reveal_strlit("topic");
    reveal_strlit("description");
    reveal_strlit("author");
    reveal_strlit("version");
    reveal_strlit("required");
}

pub open spec fn key_good(key: Seq<char>) -> bool {
    key.len() > 0 && !is_space_c(key[0]) && !is_space_c(key.last()) && key[0] != '#' && no_char(
        key,
        ':',
    ) && no_char(key, '\n')
}

proof fn lemma_scan_group_topic(st: MetaScan, o: Option<Seq<char>>)
    requires
        !st.stopped,
        field_ok(o),
    ensures
        ({
            let r = meta_scan(st, field_lines("topic"@, o));
            &&& !r.stopped
            &&& r.m == (MetaModel {
                topic: if o is Some {
                    o
                } else {
                    st.m.topic
                },
                ..st.m
            })
        }),
{
    reveal_strlit("topic");
    lemma_key_facts();
    match o {
        None => {
            assert(meta_scan(st, field_lines("topic"@, o)) == st);
            assert(st.m =~= MetaModel { topic: st.m.topic, ..st.m });
        },
        Some(v) => {
            let line = mk_meta_line("topic"@, v);
            assert(field_lines("topic"@, o) == seq![line]);
            lemma_scan_one(st, "topic"@, v);
            assert(seq![line][0] == line);
            assert(seq![line].drop_first() =~= Seq::<Seq<char>>::empty());
            assert(meta_scan(meta_step(st, line), Seq::<Seq<char>>::empty()) == meta_step(
                st,
                line,
            ));
            assert(meta_scan(st, seq![line]) == meta_step(st, line));
            assert(eq_ci("topic"@, "topic"@));
            assert(meta_step_keyed(st, "topic"@, v).m =~= MetaModel { topic: Some(v), ..st.m });
        },
    }
}


proof fn lemma_scan_group_description(st: MetaScan, o: Option<Seq<char>>)
    requires
        !st.stopped,
        field_ok(o),
    ensures
        ({
            let r = meta_scan(st, field_lines("description"@, o));
            &&& !r.stopped
            &&& r.m == (MetaModel {
                description: if o is Some {
                    o
                } else {
                    st.m.description
                },
                ..st.m
            })
        }),
{
    reveal_strlit("topic");
    reveal_strlit("description");
    lemma_key_facts();
    match o {
        None => {
            assert(st.m =~= MetaModel { description: st.m.description, ..st.m });
        },
        Some(v) => {
            let line = mk_meta_line("description"@, v);
            lemma_scan_one(st, "description"@, v);
            assert(seq![line][0] == line);
            assert(seq![line].drop_first() =~= Seq::<Seq<char>>::empty());
            assert(meta_scan(meta_step(st, line), Seq::<Seq<char>>::empty()) == meta_step(
                st,
                line,
            ));
            assert(meta_scan(st, seq![line]) == meta_step(st, line));
            assert(!eq_ci("description"@, "topic"@));
            assert(eq_ci("description"@, "description"@));
            assert(meta_step_keyed(st, "description"@, v).m =~= MetaModel {
                description: Some(v),
                ..st.m
            });
        },
    }
}

proof fn lemma_scan_group_author(st: MetaScan, o: Option<Seq<char>>)
    requires
        !st.stopped,
        field_ok(o),
    ensures
        ({
            let r = meta_scan(st, field_lines("author"@, o));
            &&& !r.stopped
            &&& r.m == (MetaModel {
                author: if o is Some {
                    o
                } else {
                    st.m.author
                },
                ..st.m
            })
        }),
{
    reveal_strlit("topic");
    reveal_strlit("description");
    reveal_strlit("author");
    lemma_key_facts();
    match o {
        None => {
            assert(st.m =~= MetaModel { author: st.m.author, ..st.m });
        },
        Some(v) => {
            let line = mk_meta_line("author"@, v);
            lemma_scan_one(st, "author"@, v);
            assert(seq![line][0] == line);
            assert(seq![line].drop_first() =~= Seq::<Seq<char>>::empty());
            assert(meta_scan(meta_step(st, line), Seq::<Seq<char>>::empty()) == meta_step(
                st,
                line,
            ));
            assert(meta_scan(st, seq![line]) == meta_step(st, line));
            assert(!eq_ci("author"@, "topic"@));
            assert(!eq_ci("author"@, "description"@));
            assert(eq_ci("author"@, "author"@));
            assert(meta_step_keyed(st, "author"@, v).m =~= MetaModel { author: Some(v), ..st.m });
        },
    }
}

proof fn lemma_scan_group_version(st: MetaScan, o: Option<Seq<char>>)
    requires
        !st.stopped,
        field_ok(o),
    ensures
        ({
            let r = meta_scan(st, field_lines("version"@, o));
            &&& !r.stopped
            &&& r.m == (MetaModel {
                version: if o is Some {
                    o
                } else {
                    st.m.version
                },
                ..st.m
            })
        }),
{
    reveal_strlit("topic");
    reveal_strlit("description");
    reveal_strlit("author");
    reveal_strlit("version");
    lemma_key_facts();
    match o {
        None => {
            assert(st.m =~= MetaModel { version: st.m.version, ..st.m });
        },
        Some(v) => {
            let line = mk_meta_line("version"@, v);
            lemma_scan_one(st, "version"@, v);
            assert(seq![line][0] == line);
            assert(seq![line].drop_first() =~= Seq::<Seq<char>>::empty());
            assert(meta_scan(meta_step(st, line), Seq::<Seq<char>>::empty()) == meta_step(
                st,
                line,
            ));
            assert(meta_scan(st, seq![line]) == meta_step(st, line));
            assert(!eq_ci("version"@, "topic"@));
            assert(!eq_ci("version"@, "description"@));
            assert(!eq_ci("version"@, "author"@));
            assert(eq_ci("version"@, "version"@));
            assert(meta_step_keyed(st, "version"@, v).m =~= MetaModel {
                version: Some(v),
                ..st.m
            });
        },
    }
}

proof fn lemma_scan_group_required(st: MetaScan, o: Option<Seq<Seq<char>>>)
    requires
        !st.stopped,
        req_ok(o),
    ensures
        ({
            let r = meta_scan(st, req_lines(o));
            &&& !r.stopped
            &&& r.m == (MetaModel {
                required: if o is Some {
                    o
                } else {
                    st.m.required
                },
                ..st.m
            })
        }),
{
    reveal_strlit("topic");
    reveal_strlit("description");
    reveal_strlit("author");
    reveal_strlit("version");
    reveal_strlit("required");
    lemma_key_facts();
    match o {
        None => {
            assert(st.m =~= MetaModel { required: st.m.required, ..st.m });
        },
        Some(l) => {
            lemma_join_comma(l);
            let v = join_c(l, ',');
            let line = mk_meta_line("required"@, v);
            lemma_scan_one(st, "required"@, v);
            assert(seq![line][0] == line);
            assert(seq![line].drop_first() =~= Seq::<Seq<char>>::empty());
            assert(meta_scan(meta_step(st, line), Seq::<Seq<char>>::empty()) == meta_step(
                st,
                line,
            ));
            assert(meta_scan(st, seq![line]) == meta_step(st, line));
            assert(!eq_ci("required"@, "topic"@));
            assert(!eq_ci("required"@, "description"@));
            assert(!eq_ci("required"@, "author"@));
            assert(!eq_ci("required"@, "version"@));
            assert(eq_ci("required"@, "required"@));
            assert(meta_step_keyed(st, "required"@, v).m =~= MetaModel {
                required: Some(l),
                ..st.m
            });
        },
    }
}

} // verus!
