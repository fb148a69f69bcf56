//! The document parser type and the dependency validation rules: a
//! declared dependency must carry the dialog file extension, a name may
//! be declared only once, and a file-transfer target must be a member
//! of the validated set.

use vstd::prelude::*;

use crate::text::{has_suffix, has_suffix_str, str_to_chars, tag_msg};
use crate::types::{err_text, BdlError, DepSet};

verus! {

/// Whether a file name carries the dialog file extension.
pub open spec fn ends_bdl(s: Seq<char>) -> bool {
    has_suffix(s, ".bdl"@)
}

/// Pairwise-distinct character sequences.
pub open spec fn all_distinct(s: Seq<Seq<char>>) -> bool {
    forall|i: int, j: int| 0 <= i < j < s.len() ==> s[i] != s[j]
}

/// The message of a rejected dependency file name.
pub open spec fn bad_ext_msg(file: Seq<char>) -> Seq<char> {
    "Invalid dependency file extension: "@ + file
}

/// The message of a file-transfer target outside the validated set.
pub open spec fn undeclared_msg(file: Seq<char>) -> Seq<char> {
    "Undeclared dependency: "@ + file
}

/// The message of a dependency declared more than once.
pub open spec fn duplicate_msg(file: Seq<char>) -> Seq<char> {
    "Duplicate dependency: "@ + file
}

/// Whether the declaration at `i` is faulty: a bad extension, or a
/// repetition of an earlier name.
pub open spec fn dep_fault(ds: Seq<Seq<char>>, i: int) -> bool {
    !ends_bdl(ds[i]) || exists|j: int| 0 <= j < i && ds[j] == ds[i]
}

/// Parses one document text into metadata, variable scopes and nodes.
pub struct BdlParser {
    pub(crate) content: String,
}

impl View for BdlParser {
    type V = Seq<char>;

    closed spec fn view(&self) -> Seq<char> {
        self.content@
    }
}

impl BdlParser {
    /// A parser over the given document text.
    pub fn new(content: String) -> (r: Self)
        ensures
            r@ == content@,
    {
        BdlParser { content }
    }

    /// The document text held by the parser.
    pub(crate) fn content_ref(&self) -> (r: &String)
        ensures
            r@ == self@,
    {
        &self.content
    }

    /// Accept a dependency file name exactly when it carries the dialog
    /// file extension; a rejection names the extension as the cause and
    /// the offending file.
    pub fn validate_dependency_file(&self, file: &str) -> (r: Result<(), BdlError>)
        ensures
            match r {
                Ok(_) => ends_bdl(file@),
                Err(e) => e is DependencyError && !ends_bdl(file@) && err_text(e) == bad_ext_msg(
                    file@,
                ),
            },
    {
        let chars = str_to_chars(file);
        if has_suffix_str(&chars, ".bdl") {
            Ok(())
        } else {
            Err(BdlError::DependencyError(tag_msg("Invalid dependency file extension: ", file)))
        }
    }

    /// Validate the declared dependency list: every name must carry the
    /// dialog extension and no name may repeat.  On success the result
    /// holds exactly the declared names in declaration order; a
    /// rejection names the first faulty declaration and its cause.
    pub fn validate_dependencies(&self, dependencies: &Vec<String>) -> (r: Result<
        DepSet,
        BdlError,
    >)
        ensures
            match r {
                Ok(s) => {
                    &&& s@ == dependencies.deep_view()
                    &&& forall|i: int|
                        0 <= i < dependencies.deep_view().len() ==> ends_bdl(
                            dependencies.deep_view()[i],
                        )
                    &&& all_distinct(dependencies.deep_view())
                },
                Err(e) => {
                    &&& e is DependencyError
                    &&& !((forall|i: int|
                        0 <= i < dependencies.deep_view().len() ==> ends_bdl(
                            dependencies.deep_view()[i],
                        )) && all_distinct(dependencies.deep_view()))
                    &&& exists|i: int|
                        {
                            &&& 0 <= i < dependencies.deep_view().len()
                            &&& #[trigger] dep_fault(dependencies.deep_view(), i)
                            &&& forall|j: int| 0 <= j < i ==> !dep_fault(dependencies.deep_view(), j)
                            &&& err_text(e) == if !ends_bdl(dependencies.deep_view()[i]) {
                                bad_ext_msg(dependencies.deep_view()[i])
                            } else {
                                duplicate_msg(dependencies.deep_view()[i])
                            }
                        }
                },
            },
    {
        let ghost dv = dependencies.deep_view();
        let n = dependencies.len();
        proof {
            assert(dv.len() == n);
        }
        let mut out = DepSet::new();
        let mut i: usize = 0;
        while i < n
            invariant
                0 <= i <= n,
                n == dependencies@.len(),
                dv == dependencies.deep_view(),
                out@ =~= dv.take(i as int),
                forall|j: int| 0 <= j < i ==> ends_bdl(dv[j]),
                all_distinct(dv.take(i as int)),
            decreases n - i,
        {
            proof {
                assert(dv[i as int] == dependencies@[i as int]@);
            }
            let name = &dependencies[i];
            match self.validate_dependency_file(name.as_str()) {
                Ok(_) => {},
                Err(e) => {
                    proof {
                        assert(dep_fault(dv, i as int));
                        assert forall|j: int| 0 <= j < i implies !dep_fault(dv, j) by {
                            assert(ends_bdl(dv[j]));
                            if exists|j2: int| 0 <= j2 < j && dv[j2] == dv[j] {
                                let w2 = choose|j2: int| 0 <= j2 < j && dv[j2] == dv[j];
                                assert(dv.take(i as int)[w2] == dv[w2]);
                                assert(dv.take(i as int)[j] == dv[j]);
                                assert(false);
                            }
                        }
                    }
                    return Err(e);
                },
            }
            let fresh = out.insert(name.clone());
            if !fresh {
                proof {
                    let w = choose|j: int| 0 <= j < i && dv.take(i as int)[j] == dv[i as int];
                    assert(dv[w] == dv[i as int]);
                    assert(!all_distinct(dv));
                    assert(dep_fault(dv, i as int));
                    assert forall|j: int| 0 <= j < i implies !dep_fault(dv, j) by {
                            assert(ends_bdl(dv[j]));
                            if exists|j2: int| 0 <= j2 < j && dv[j2] == dv[j] {
                                let w2 = choose|j2: int| 0 <= j2 < j && dv[j2] == dv[j];
                                assert(dv.take(i as int)[w2] == dv[w2]);
                                assert(dv.take(i as int)[j] == dv[j]);
                                assert(false);
                            }
                        }
                }
                return Err(BdlError::DependencyError(tag_msg(
                    "Duplicate dependency: ",
                    name.as_str(),
                )));
            }
            proof {
                assert(out@ =~= dv.take(i + 1 as int));
                assert(all_distinct(dv.take(i + 1 as int))) by {
                    assert(forall|a: int, b: int|
                        0 <= a < b < i + 1 ==> dv.take(i + 1 as int)[a] == dv[a] && dv.take(
                            i + 1 as int,
                        )[b] == dv[b]);
                    assert(forall|a: int|
                        0 <= a < i ==> dv.take(i as int)[a] == dv[a]);
                }
            }
            i += 1;
        }
        assert(out@ =~= dv);
        Ok(out)
    }

    /// Accept a file-transfer target exactly when it carries the dialog
    /// extension and is a member of the validated dependency set; a
    /// rejection names its cause, the extension check coming first.
    pub fn validate_file_transfer(&self, file: &str, dependencies: &DepSet) -> (r: Result<
        (),
        BdlError,
    >)
        ensures
            match r {
                Ok(_) => ends_bdl(file@) && dependencies@.contains(file@),
                Err(e) => e is DependencyError && !(ends_bdl(file@) && dependencies@.contains(
                    file@,
                )) && err_text(e) == if !ends_bdl(file@) {
                    bad_ext_msg(file@)
                } else {
                    undeclared_msg(file@)
                },
            },
    {
        self.validate_dependency_file(file)?;
        if !dependencies.contains(file) {
            return Err(BdlError::DependencyError(tag_msg("Undeclared dependency: ", file)));
        }
        Ok(())
    }
}

} // verus!
