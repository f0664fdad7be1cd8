//! The decisions that turn the parts of a query description into the query
//! representation: which node search a node stands for, and how a join
//! between two named nodes becomes an operator.

use vstd::prelude::*;
use crate::query::{opt_view, Conjunction, NodeSearchSpec, OperatorSpec, PrecedenceSpec};

verus! {

/// One annotation condition of a query node.
pub struct NodeAnnotationDesc {
    pub namespace: Option<String>,
    pub name: Option<String>,
    pub value: Option<String>,
    pub text_matching: Option<String>,
}

/// A query node: its annotation conditions, the text it spans, how that
/// text is matched and whether it must be a token.
pub struct NodeDesc {
    pub annotations: Vec<NodeAnnotationDesc>,
    pub spanned_text: Option<String>,
    pub span_text_matching: Option<String>,
    pub token: Option<bool>,
}

/// The text-matching mode that asks for a regular expression.
pub const REGEXP_EQUAL: &'static str = "REGEXP_EQUAL";

/// The mode is a regular-expression match.
pub open spec fn spec_is_regex(text_matching: Option<String>) -> bool {
    opt_view(text_matching) == Some(REGEXP_EQUAL@)
}

/// Whether `text_matching` asks for a regular-expression match.
pub fn is_regex(text_matching: &Option<String>) -> (r: bool)
    ensures
        r == spec_is_regex(*text_matching),
{
    match text_matching {
        Some(tm) => {
            let target = REGEXP_EQUAL.to_string();
            *tm == target
        },
        None => false,
    }
}

/// The node search for `node`. The first annotation condition decides when
/// there is one, and it must have a name: with a value and the
/// regular-expression mode, the whole value must match the value as a
/// pattern; otherwise the value, when given, must be equal. Without
/// conditions, a spanned text asks for a token with that text (matched as a
/// pattern in the regular-expression mode), an explicit token flag for any
/// token, and nothing for any node.
pub fn node_spec(node: &NodeDesc) -> (r: Option<NodeSearchSpec>)
    ensures
        node.annotations@.len() > 0 ==> {
            let a = node.annotations@[0];
            &&& (r is Some <==> a.name is Some)
            &&& (r matches Some(s) ==> if a.value is Some && spec_is_regex(a.text_matching) {
                s is RegexValue && s.key() == (opt_view(a.namespace), a.name->Some_0@, None::<Seq<char>>)
                    && s.pattern() == opt_view(a.value)
            } else {
                s is ExactValue && s.key() == (opt_view(a.namespace), a.name->Some_0@, opt_view(a.value))
            })
        },
        node.annotations@.len() == 0 ==> (r matches Some(s) && (match node.spanned_text {
            Some(t) => if spec_is_regex(node.span_text_matching) {
                s matches NodeSearchSpec::RegexTokenValue { pattern, leafs_only } && pattern@ == t@
                    && leafs_only == (node.token == Some(true))
            } else {
                s matches NodeSearchSpec::ExactTokenValue { val, leafs_only } && val@ == t@
                    && leafs_only == (node.token == Some(true))
            },
            None => if node.token is Some {
                s is AnyToken
            } else {
                s is AnyNode
            },
        })),
{
    if node.annotations.len() > 0 {
        let a = &node.annotations[0];
        match &a.name {
            Some(name) => {
                let ns = match &a.namespace {
                    Some(x) => Some(x.clone()),
                    None => None,
                };
                match &a.value {
                    Some(v) => if is_regex(&a.text_matching) {
                        Some(NodeSearchSpec::RegexValue { ns, name: name.clone(), pattern: v.clone() })
                    } else {
                        Some(NodeSearchSpec::ExactValue { ns, name: name.clone(), val: Some(v.clone()) })
                    },
                    None => Some(NodeSearchSpec::ExactValue { ns, name: name.clone(), val: None }),
                }
            },
            None => None,
        }
    } else {
        let leafs_only = match node.token {
            Some(t) => t,
            None => false,
        };
        match &node.spanned_text {
            Some(t) => if is_regex(&node.span_text_matching) {
                Some(NodeSearchSpec::RegexTokenValue { pattern: t.clone(), leafs_only })
            } else {
                Some(NodeSearchSpec::ExactTokenValue { val: t.clone(), leafs_only })
            },
            None => if node.token.is_some() {
                Some(NodeSearchSpec::AnyToken)
            } else {
                Some(NodeSearchSpec::AnyNode)
            },
        }
    }
}

/// Add a precedence between the nodes named `left` and `right`; `false`, and
/// nothing added, when either name is unknown.
pub fn add_precedence_join(
    q: &mut Conjunction,
    left: &str,
    right: &str,
    min_dist: usize,
    max_dist: usize,
    segmentation: Option<String>,
) -> (r: bool)
    ensures
        final(q).nodes@ == old(q).nodes@,
        final(q).variables@ == old(q).variables@,
        r <==> (exists|i: int|
            0 <= i < old(q).variables@.len() && opt_view(old(q).variables@[i]) == Some(left@))
            && (exists|i: int|
            0 <= i < old(q).variables@.len() && opt_view(old(q).variables@[i]) == Some(right@)),
        !r ==> final(q).operators@ == old(q).operators@,
        r ==> final(q).operators@.len() == old(q).operators@.len() + 1 && final(q).operators@.drop_last()
            == old(q).operators@ && {
            let o = final(q).operators@.last();
            &&& opt_view(old(q).variables@[o.lhs as int]) == Some(left@)
            &&& opt_view(old(q).variables@[o.rhs as int]) == Some(right@)
            &&& o.lhs < old(q).variables@.len()
            &&& o.rhs < old(q).variables@.len()
            &&& o.op.min() == min_dist
            &&& o.op.max() == max_dist
            &&& o.op.component() == crate::query::ordering_component(opt_view(segmentation))
        },
{
    let l = q.get_variable_pos(left);
    let r = q.get_variable_pos(right);
    match (l, r) {
        (Some(l), Some(r)) => {
            let op = OperatorSpec::Precedence(PrecedenceSpec { segmentation, min_dist, max_dist });
            q.add_operator(op, l, r);
            assert(q.operators@.drop_last() =~= old(q).operators@);
            true
        },
        _ => false,
    }
}

} // verus!
