//! Inference of a column's kind from its cell texts.

use vstd::prelude::*;
use crate::dataset::{column_of, has_column};
use crate::text::{
    bool_text, chars_are_float, chars_are_int, chars_are_missing, chars_of, float_text, int_text,
    missing_text, parses_as_bool,
};

verus! {

/// The kind of values that a column holds.
#[derive(Debug, Clone, Copy, PartialEq, Eq, Structural)]
pub enum TypeInference {
    Integer,
    Float,
    String,
    Boolean,
    Mixed,
}

/// Every cell of `col` is missing.
pub open spec fn all_missing(col: Seq<Seq<char>>) -> bool {
    forall|i: int| 0 <= i < col.len() ==> missing_text(#[trigger] col[i])
}

/// Every cell of `col` that is not missing writes an integer.
pub open spec fn all_ints(col: Seq<Seq<char>>) -> bool {
    forall|i: int| 0 <= i < col.len() && !missing_text(#[trigger] col[i]) ==> int_text(col[i])
}

/// Every cell of `col` that is not missing writes a floating-point number.
pub open spec fn all_floats(col: Seq<Seq<char>>) -> bool {
    forall|i: int| 0 <= i < col.len() && !missing_text(#[trigger] col[i]) ==> float_text(col[i])
}

/// Every cell of `col` that is not missing writes a truth value.
pub open spec fn all_bools(col: Seq<Seq<char>>) -> bool {
    forall|i: int| 0 <= i < col.len() && !missing_text(#[trigger] col[i]) ==> bool_text(col[i])
}

/// The kind of a column. Missing cells have no say. A column without any
/// other cell is `Mixed`. A column that holds, among its cells, one that is no
/// integer, one that is no float and one that is no truth value is `String`.
/// Otherwise integers come before floats, and both give way to truth values
/// where every cell is one.
pub open spec fn inferred_type(col: Seq<Seq<char>>) -> TypeInference {
    if all_missing(col) {
        TypeInference::Mixed
    } else if !all_ints(col) && !all_floats(col) && !all_bools(col) {
        TypeInference::String
    } else if all_ints(col) && !all_bools(col) {
        TypeInference::Integer
    } else if all_floats(col) && !all_bools(col) {
        TypeInference::Float
    } else if all_bools(col) {
        TypeInference::Boolean
    } else {
        TypeInference::Mixed
    }
}

/// Infers the kind of the column `col_idx` of `rows`.
pub fn infer_type(rows: &[Vec<String>], col_idx: usize) -> (kind: TypeInference)
    requires
        has_column(rows.deep_view(), col_idx as int),
    ensures
        kind == inferred_type(column_of(rows.deep_view(), col_idx as int)),
{
    let ghost col = column_of(rows.deep_view(), col_idx as int);
    let mut is_int = true;
    let mut is_float = true;
    let mut is_bool = true;
    let mut seen = false;
    let mut i: usize = 0;
    while i < rows.len()
        invariant
            i <= rows.len(),
            has_column(rows.deep_view(), col_idx as int),
            col == column_of(rows.deep_view(), col_idx as int),
            col.len() == rows.len(),
            seen == !all_missing(col.take(i as int)),
            is_int == all_ints(col.take(i as int)),
            is_float == all_floats(col.take(i as int)),
            is_bool == all_bools(col.take(i as int)),
            is_int || is_float || is_bool,
        decreases rows.len() - i,
    {
        assert(rows.deep_view()[i as int].len() > col_idx);
        let val = &rows[i][col_idx];
        assert(val@ == col[i as int]);
        assert(col.take(i + 1).drop_last() =~= col.take(i as int));
        assert(col.take(i + 1).last() == col[i as int]);
        let ghost before = col.take(i as int);
        let ghost after = col.take(i + 1);
        assert forall|j: int| 0 <= j < i implies #[trigger] after[j] == before[j] by {}
        let cs = chars_of(val.as_str());
        if !chars_are_missing(&cs) {
            seen = true;
            if is_int && !chars_are_int(&cs) {
                is_int = false;
            }
            if is_float && !chars_are_float(&cs) {
                is_float = false;
            }
            if is_bool && !parses_as_bool(val.as_str()) {
                is_bool = false;
            }
            proof {
                assert(!missing_text(after[i as int]));
                lemma_flags_step(before, after);
            }
            if !is_int && !is_float && !is_bool {
                proof {
                    lemma_flags_lost(col, i + 1);
                }
                return TypeInference::String;
            }
        } else {
            proof {
                lemma_flags_step(before, after);
            }
        }
        i += 1;
    }
    assert(col.take(i as int) =~= col);
    if !seen {
        TypeInference::Mixed
    } else if is_int && !is_bool {
        TypeInference::Integer
    } else if is_float && !is_bool {
        TypeInference::Float
    } else if is_bool {
        TypeInference::Boolean
    } else {
        TypeInference::Mixed
    }
}

/// How the four column facts move when one cell is added at the end.
proof fn lemma_flags_step(before: Seq<Seq<char>>, after: Seq<Seq<char>>)
    requires
        after.len() == before.len() + 1,
        after.drop_last() == before,
    ensures
        all_missing(after) == (all_missing(before) && missing_text(after.last())),
        all_ints(after) == (all_ints(before) && (missing_text(after.last()) || int_text(
            after.last(),
        ))),
        all_floats(after) == (all_floats(before) && (missing_text(after.last()) || float_text(
            after.last(),
        ))),
        all_bools(after) == (all_bools(before) && (missing_text(after.last()) || bool_text(
            after.last(),
        ))),
{
    assert forall|j: int| 0 <= j < before.len() implies #[trigger] after[j] == before[j] by {
        assert(after.drop_last()[j] == after[j]);
    }
    let last = after.len() - 1;
    assert(after[last] == after.last());
    if all_missing(before) && missing_text(after.last()) {
        assert forall|j: int| 0 <= j < after.len() implies missing_text(#[trigger] after[j]) by {
            if j < last {
                assert(after[j] == before[j]);
            }
        }
    }
    if all_ints(before) && (missing_text(after.last()) || int_text(after.last())) {
        assert forall|j: int| 0 <= j < after.len() && !missing_text(
            #[trigger] after[j],
        ) implies int_text(after[j]) by {
            if j < last {
                assert(after[j] == before[j]);
            }
        }
    }
    if all_floats(before) && (missing_text(after.last()) || float_text(after.last())) {
        assert forall|j: int| 0 <= j < after.len() && !missing_text(
            #[trigger] after[j],
        ) implies float_text(after[j]) by {
            if j < last {
                assert(after[j] == before[j]);
            }
        }
    }
    if all_bools(before) && (missing_text(after.last()) || bool_text(after.last())) {
        assert forall|j: int| 0 <= j < after.len() && !missing_text(
            #[trigger] after[j],
        ) implies bool_text(after[j]) by {
            if j < last {
                assert(after[j] == before[j]);
            }
        }
    }
    if all_missing(after) {
        assert forall|j: int| 0 <= j < before.len() implies missing_text(#[trigger] before[j]) by {
            assert(after[j] == before[j]);
        }
    }
    if all_ints(after) {
        assert forall|j: int| 0 <= j < before.len() && !missing_text(
            #[trigger] before[j],
        ) implies int_text(before[j]) by {
            assert(after[j] == before[j]);
        }
    }
    if all_floats(after) {
        assert forall|j: int| 0 <= j < before.len() && !missing_text(
            #[trigger] before[j],
        ) implies float_text(before[j]) by {
            assert(after[j] == before[j]);
        }
    }
    if all_bools(after) {
        assert forall|j: int| 0 <= j < before.len() && !missing_text(
            #[trigger] before[j],
        ) implies bool_text(before[j]) by {
            assert(after[j] == before[j]);
        }
    }
}

/// What a prefix of a column has lost, the column has lost.
proof fn lemma_flags_lost(col: Seq<Seq<char>>, k: int)
    requires
        0 <= k <= col.len(),
    ensures
        !all_missing(col.take(k)) ==> !all_missing(col),
        !all_ints(col.take(k)) ==> !all_ints(col),
        !all_floats(col.take(k)) ==> !all_floats(col),
        !all_bools(col.take(k)) ==> !all_bools(col),
{
    let prefix = col.take(k);
    assert forall|j: int| 0 <= j < k implies #[trigger] prefix[j] == col[j] by {}
    if all_missing(col) {
        assert forall|j: int| 0 <= j < prefix.len() implies missing_text(#[trigger] prefix[j]) by {
            assert(prefix[j] == col[j]);
        }
    }
    if all_ints(col) {
        assert forall|j: int| 0 <= j < prefix.len() && !missing_text(
            #[trigger] prefix[j],
        ) implies int_text(prefix[j]) by {
            assert(prefix[j] == col[j]);
        }
    }
    if all_floats(col) {
        assert forall|j: int| 0 <= j < prefix.len() && !missing_text(
            #[trigger] prefix[j],
        ) implies float_text(prefix[j]) by {
            assert(prefix[j] == col[j]);
        }
    }
    if all_bools(col) {
        assert forall|j: int| 0 <= j < prefix.len() && !missing_text(
            #[trigger] prefix[j],
        ) implies bool_text(prefix[j]) by {
            assert(prefix[j] == col[j]);
        }
    }
}

} // verus!
