//! The `$global_vars:` / `$local_vars:` blocks: a line-by-line scan
//! that opens a block at an opener line, closes it at a lone `}`, and
//! hands every other line inside a block to the value-line parser.  A
//! second global block is a parse error; repeated local blocks
//! accumulate, later keys overwriting earlier ones in place.

use vstd::prelude::*;

use crate::model::{lemma_vm_insert_wf, vm_insert, vm_wf};
use crate::parser::BdlParser;
use crate::text::{
    chars_to_string, doc_lines, eq_str, has_prefix, has_prefix_str, lemma_skip_one,
    lemma_trim_idem, split_c, split_vec, str_to_chars, subvec, to_lines, trim_s, trim_vec, trimmed,
    vviews,
};
use crate::types::{err_text, BdlError, VarMap};
use crate::value::{classify_value, parse_value, BdlValue, ValueModel};

verus! {

// ---------------------------------------------------------------------------
// The scan, one line at a time
// ---------------------------------------------------------------------------

#[verifier::ext_equal]
pub ghost enum BlockState {
    NoBlock,
    InGlobal,
    InLocal,
}

/// State of the variable scan: the two mappings gathered so far, which
/// block the scan is inside, and, when a malformed line or duplicate
/// global block has failed the whole parse, the text the resulting
/// error carries.
#[verifier::ext_equal]
pub ghost struct VarScan {
    pub global: Option<Seq<(Seq<char>, ValueModel)>>,
    pub local: Seq<(Seq<char>, ValueModel)>,
    pub block: BlockState,
    pub fail: Option<Seq<char>>,
}

pub open spec fn vars_start() -> VarScan {
    VarScan { global: None, local: Seq::empty(), block: BlockState::NoBlock, fail: None }
}

/// The message of a second global block.
pub open spec fn dup_global_msg() -> Seq<char> {
    "Duplicate global variables declaration"@
}

/// `s` without one optional trailing comma.
pub open spec fn strip_one_comma(s: Seq<char>) -> Seq<char> {
    if s.len() > 0 && s.last() == ',' {
        s.drop_last()
    } else {
        s
    }
}

/// The cleaned value text: trimmed, one trailing comma dropped, and
/// trimmed again.
pub open spec fn value_term(raw: Seq<char>) -> Seq<char> {
    trim_s(strip_one_comma(trim_s(raw)))
}

/// One non-blank, non-closing line inside a block: exactly one colon
/// separates the trimmed key from the value, and the cleaned value must
/// classify; `None` marks a malformed line.
pub open spec fn var_line(line: Seq<char>) -> Option<(Seq<char>, ValueModel)> {
    let parts = split_c(line, ':');
    if parts.len() != 2 {
        None
    } else {
        match classify_value(value_term(parts[1])) {
            Some(v) => Some((trim_s(parts[0]), v)),
            None => None,
        }
    }
}

/// One trimmed line of the variable scan.
pub open spec fn vars_step(st: VarScan, line: Seq<char>) -> VarScan {
    if st.fail is Some {
        st
    } else if has_prefix(line, "$global_vars:"@) {
        if st.global is Some {
            VarScan { fail: Some(dup_global_msg()), ..st }
        } else {
            VarScan { global: Some(Seq::empty()), block: BlockState::InGlobal, ..st }
        }
    } else if has_prefix(line, "$local_vars:"@) {
        VarScan { block: BlockState::InLocal, ..st }
    } else if st.block is NoBlock {
        st
    } else if line.len() == 0 {
        st
    } else if line == "}"@ {
        VarScan { block: BlockState::NoBlock, ..st }
    } else {
        match var_line(line) {
            None => VarScan { fail: Some(line), ..st },
            Some((k, v)) => match st.block {
                BlockState::InGlobal => match st.global {
                    Some(g) => VarScan { global: Some(vm_insert(g, k, v)), ..st },
                    None => st,
                },
                _ => VarScan { local: vm_insert(st.local, k, v), ..st },
            },
        }
    }
}

pub open spec fn vars_scan(st: VarScan, lines: Seq<Seq<char>>) -> VarScan
    decreases lines.len(),
{
    if lines.len() == 0 {
        st
    } else {
        vars_scan(vars_step(st, lines[0]), lines.drop_first())
    }
}

/// The outcome of scanning a whole document text.
pub open spec fn vars_of(text: Seq<char>) -> VarScan {
    vars_scan(vars_start(), doc_lines(text))
}

/// A failed state is final: the scan changes nothing after it.
pub proof fn lemma_vars_scan_failed(st: VarScan, lines: Seq<Seq<char>>)
    requires
        st.fail is Some,
    ensures
        vars_scan(st, lines) == st,
    decreases lines.len(),
{
    if lines.len() > 0 {
        lemma_vars_scan_failed(st, lines.drop_first());
    }
}

// ---------------------------------------------------------------------------
// The executable parsers
// ---------------------------------------------------------------------------

/// Map the executable block marker onto the scan state.
pub open spec fn block_of(b: u8) -> BlockState {
    if b == 1 {
        BlockState::InGlobal
    } else if b == 2 {
        BlockState::InLocal
    } else {
        BlockState::NoBlock
    }
}

/// Parse one variable declaration line.  A blank line or a lone `}`
/// yields nothing; otherwise the line must hold exactly one
/// colon-separated key/value pair with a classifiable value, else the
/// parse fails with the raw line in the error.
pub fn parse_variable_line(line: &str) -> (r: Result<Option<(String, BdlValue)>, BdlError>)
    ensures
        ({
            let t = trim_s(line@);
            if t.len() == 0 || t == "}"@ {
                r matches Ok(None)
            } else {
                match var_line(line@) {
                    Some((k, v)) => r matches Ok(Some(p)) && p.0@ == k && p.1@ == v,
                    None => r matches Err(e) && e is ParseError && err_text(e) == line@,
                }
            }
        }),
{
    let chars = str_to_chars(line);
    let t = trim_vec(&chars);
    if t.len() == 0 || eq_str(&t, "}") {
        return Ok(None);
    }
    let parts = split_vec(&chars, ':');
    if parts.len() != 2 {
        return Err(BdlError::ParseError(String::from_str(line)));
    }
    proof {
        assert(vviews(parts@)[0] == parts@[0]@);
        assert(vviews(parts@)[1] == parts@[1]@);
    }
    let key = trim_vec(&parts[0]);
    let v1 = trim_vec(&parts[1]);
    let v2 = if v1.len() > 0 && v1[v1.len() - 1] == ',' {
        let w = subvec(&v1, 0, v1.len() - 1);
        proof {
            assert(w@ =~= v1@.drop_last());
        }
        w
    } else {
        v1
    };
    let v3 = trim_vec(&v2);
    match parse_value(&v3) {
        Some(val) => Ok(Some((chars_to_string(&key), val))),
        None => Err(BdlError::ParseError(String::from_str(line))),
    }
}

impl BdlParser {
    /// Gather the variable blocks of the document: the global mapping,
    /// present exactly when a `$global_vars` block was declared, and
    /// the local mapping, always present.  Both mappings are key-unique.
    /// A duplicate global block or a malformed block line fails the
    /// parse with a `ParseError` carrying the scan's failure text: the
    /// duplicate-declaration message, or the offending raw line.
    pub fn parse_variables(&self) -> (r: Result<(Option<VarMap>, VarMap), BdlError>)
        ensures
            ({
                let sc = vars_of(self@);
                match r {
                    Ok(pair) => {
                        &&& sc.fail is None
                        &&& match (pair.0, sc.global) {
                            (Some(gm), Some(gs)) => gm@ == gs && vm_wf(gm@),
                            (None, None) => true,
                            _ => false,
                        }
                        &&& pair.1@ == sc.local
                        &&& vm_wf(pair.1@)
                    },
                    Err(e) => sc.fail is Some && e is ParseError && err_text(e) == sc.fail->0,
                }
            }),
    {
        let lines = to_lines(self.content_ref().as_str());
        let ghost lv = doc_lines(self@);
        let mut global: Option<VarMap> = None;
        let mut local: VarMap = VarMap::new();
        let mut mode: u8 = 0;
        let n = lines.len();
        let mut i: usize = 0;
        assert(lv.skip(0) =~= lv);
        proof {
            let st0 = VarScan { global: None, local: local@, block: block_of(0), fail: None };
            assert(st0 =~= vars_start());
        }
        while i < n
            invariant
                0 <= i <= n,
                n == lines@.len(),
                vviews(lines@) == lv,
                lv == doc_lines(self@),
                mode <= 2,
                mode == 1 ==> global is Some,
                vm_wf(local@),
                match &global {
                    Some(g) => vm_wf(g@),
                    None => true,
                },
                vars_scan(vars_start(), lv) == vars_scan(
                    VarScan {
                        global: match &global {
                            Some(g) => Some(g@),
                            None => None,
                        },
                        local: local@,
                        block: block_of(mode),
                        fail: None,
                    },
                    lv.skip(i as int),
                ),
            decreases n - i,
        {
            let ghost st = VarScan {
                global: match &global {
                    Some(g) => Some(g@),
                    None => None,
                },
                local: local@,
                block: block_of(mode),
                fail: None,
            };
            let ghost line = lv[i as int];
            proof {
                assert(lv.skip(i as int)[0] == line);
                lemma_skip_one(lv, i as int);
            }
            let lineref = &lines[i];
            proof {
                assert(lineref@ == line);
            }
            if has_prefix_str(lineref, "$global_vars:") {
                if global.is_some() {
                    proof {
                        let fst = VarScan { fail: Some(dup_global_msg()), ..st };
                        assert(vars_step(st, line) =~= fst);
                        lemma_vars_scan_failed(fst, lv.skip(i + 1));
                    }
                    return Err(BdlError::ParseError(String::from_str(
                        "Duplicate global variables declaration",
                    )));
                }
                global = Some(VarMap::new());
                mode = 1;
            } else if has_prefix_str(lineref, "$local_vars:") {
                mode = 2;
            } else if mode == 0 {
            } else if lineref.len() == 0 {
            } else if eq_str(lineref, "}") {
                mode = 0;
            } else {
                proof {
                    assert(line == trim_s(split_c(self@, '\n')[i as int]));
                    lemma_trim_idem(split_c(self@, '\n')[i as int]);
                    assert(trimmed(line));
                }
                let ls = chars_to_string(lineref);
                match parse_variable_line(ls.as_str()) {
                    Ok(entry) => {
                        match entry {
                            Some(kv) => {
                                proof {
                                    if mode == 1 {
                                        match &global {
                                            Some(g) => lemma_vm_insert_wf(g@, kv.0@, kv.1@),
                                            None => (),
                                        }
                                    } else {
                                        lemma_vm_insert_wf(local@, kv.0@, kv.1@);
                                    }
                                }
                                if mode == 1 {
                                    match &mut global {
                                        Some(g) => g.insert(kv.0, kv.1),
                                        None => (),
                                    }
                                } else {
                                    local.insert(kv.0, kv.1);
                                }
                            },
                            None => {
                                // a blank or closing line never reaches here
                                assert(false);
                            },
                        }
                    },
                    Err(e) => {
                        proof {
                            let fst = VarScan { fail: Some(line), ..st };
                            assert(vars_step(st, line) =~= fst);
                            lemma_vars_scan_failed(fst, lv.skip(i + 1));
                        }
                        return Err(e);
                    },
                }
            }
            proof {
                let stn = VarScan {
                    global: match &global {
                        Some(g) => Some(g@),
                        None => None,
                    },
                    local: local@,
                    block: block_of(mode),
                    fail: None,
                };
                assert(stn =~= vars_step(st, line));
            }
            i += 1;
        }
        proof {
            assert(lv.skip(n as int) =~= Seq::<Seq<char>>::empty());
        }
        Ok((global, local))
    }
}


// ---------------------------------------------------------------------------
// The duplicate-global law
// ---------------------------------------------------------------------------

/// The scan never forgets a declared global block, and never unfails.
proof fn lemma_step_keeps_global(st: VarScan, line: Seq<char>)
    requires
        st.global is Some || st.fail is Some,
    ensures
        vars_step(st, line).global is Some || vars_step(st, line).fail is Some,
{
}

/// Once a global block was declared, any further opener fails the scan.
proof fn lemma_opener_with_global_fails(st: VarScan, lines: Seq<Seq<char>>, j: int)
    requires
        0 <= j < lines.len(),
        has_prefix(lines[j], "$global_vars:"@),
        st.global is Some || st.fail is Some,
    ensures
        vars_scan(st, lines).fail is Some,
    decreases lines.len(),
{
    if st.fail is Some {
        lemma_vars_scan_failed(st, lines);
    } else if j == 0 {
        assert(vars_step(st, lines[0]).fail is Some);
        lemma_vars_scan_failed(vars_step(st, lines[0]), lines.drop_first());
    } else {
        lemma_step_keeps_global(st, lines[0]);
        lemma_opener_with_global_fails(vars_step(st, lines[0]), lines.drop_first(), j - 1);
    }
}

proof fn lemma_two_openers_fail(st: VarScan, lines: Seq<Seq<char>>, i: int, j: int)
    requires
        0 <= i < j < lines.len(),
        has_prefix(lines[i], "$global_vars:"@),
        has_prefix(lines[j], "$global_vars:"@),
    ensures
        vars_scan(st, lines).fail is Some,
    decreases i,
{
    if st.fail is Some {
        lemma_vars_scan_failed(st, lines);
    } else if i == 0 {
        let st2 = vars_step(st, lines[0]);
        assert(st2.global is Some || st2.fail is Some);
        lemma_opener_with_global_fails(st2, lines.drop_first(), j - 1);
    } else {
        lemma_two_openers_fail(vars_step(st, lines[0]), lines.drop_first(), i - 1, j - 1);
    }
}

/// A `$global_vars` block declared twice in one document fails the
/// variable parse, whatever else the document holds: wherever two
/// lines open a global block, the scan of the whole text is failed,
/// so `parse_variables` returns a `ParseError`.
pub proof fn lemma_duplicate_global_rejected(text: Seq<char>, i: int, j: int)
    requires
        0 <= i < j < doc_lines(text).len(),
        has_prefix(doc_lines(text)[i], "$global_vars:"@),
        has_prefix(doc_lines(text)[j], "$global_vars:"@),
    ensures
        vars_of(text).fail is Some,
{
    lemma_two_openers_fail(vars_start(), doc_lines(text), i, j);
}

} // verus!
