//! Inclusion proofs: folding a commitment up a Merkle path to a root.

use vstd::prelude::*;
use vstd::utf8::encode_utf8;

use crate::digest::{hex_of, sha256, sha256_hex, sha256_hex_of};
use crate::text::push_char;

verus! {

/// One step of an inclusion path.
///
/// `sibling_is_left` describes the sibling, not the node being folded: when it
/// holds, the sibling is the left child and the running node the right one.
pub struct ProofStep {
    pub sibling: String,
    pub sibling_is_left: bool,
}

/// The deepest path that `verify_inclusion` folds.
pub const MAX_PROOF_DEPTH: usize = 64;

/// What a leaf hashes: the two characters `0` `0`, then the commitment text.
pub open spec fn leaf_preimage(commitment: Seq<char>) -> Seq<char> {
    seq!['0', '0'] + commitment
}

/// What an interior node hashes: the two characters `0` `1`, then both children.
pub open spec fn node_preimage(left: Seq<char>, right: Seq<char>) -> Seq<char> {
    seq!['0', '1'] + left + right
}

pub open spec fn leaf_hash(commitment: Seq<char>) -> Seq<char> {
    sha256_hex_of(leaf_preimage(commitment))
}

pub open spec fn node_hash(left: Seq<char>, right: Seq<char>) -> Seq<char> {
    sha256_hex_of(node_preimage(left, right))
}

/// Folding one step onto the running node.
pub open spec fn fold_step(node: Seq<char>, step: ProofStep) -> Seq<char> {
    if step.sibling_is_left {
        node_hash(step.sibling@, node)
    } else {
        node_hash(node, step.sibling@)
    }
}

/// The root that `path` folds `commitment` to.
pub open spec fn folded(commitment: Seq<char>, path: Seq<ProofStep>) -> Seq<char>
    decreases path.len(),
{
    if path.len() == 0 {
        leaf_hash(commitment)
    } else {
        fold_step(folded(commitment, path.drop_last()), path.last())
    }
}

/// A path is accepted when it is no deeper than the cap and folds to `root`.
pub open spec fn included(commitment: Seq<char>, path: Seq<ProofStep>, root: Seq<char>) -> bool {
    path.len() <= MAX_PROOF_DEPTH && folded(commitment, path) == root
}

/// The leaf hash of a commitment: SHA-256 over `00` followed by the commitment text.
pub fn hash_leaf(commitment: &str) -> (r: String)
    ensures
        r@ == leaf_hash(commitment@),
{
    let mut pre = String::new();
    push_char(&mut pre, '0');
    push_char(&mut pre, '0');
    pre.append(commitment);
    assert(pre@ =~= leaf_preimage(commitment@));
    sha256_hex(pre.as_str())
}

/// An interior node: SHA-256 over `01` followed by both children's hex strings.
pub fn hash_node(left: &str, right: &str) -> (r: String)
    ensures
        r@ == node_hash(left@, right@),
{
    let mut pre = String::new();
    push_char(&mut pre, '0');
    push_char(&mut pre, '1');
    pre.append(left);
    pre.append(right);
    assert(pre@ =~= node_preimage(left@, right@));
    sha256_hex(pre.as_str())
}

/// Folds a path from a commitment to a root and returns the root.
///
/// No depth cap is applied here; `verify_inclusion` applies it.
pub fn fold_path(commitment: &str, path: &[ProofStep]) -> (r: String)
    ensures
        r@ == folded(commitment@, path@),
{
    let mut node = hash_leaf(commitment);
    let mut i: usize = 0;
    while i < path.len()
        invariant
            i <= path@.len(),
            node@ == folded(commitment@, path@.take(i as int)),
        decreases path@.len() - i,
    {
        let step = &path[i];
        node = if step.sibling_is_left {
            hash_node(step.sibling.as_str(), node.as_str())
        } else {
            hash_node(node.as_str(), step.sibling.as_str())
        };
        assert(path@.take(i + 1).drop_last() =~= path@.take(i as int));
        i = i + 1;
    }
    assert(path@.take(i as int) =~= path@);
    node
}

/// The root that `path` folds `commitment` to, when the path is at most
/// `MAX_PROOF_DEPTH` steps long; `None` for a deeper path, which is refused
/// without folding.
pub fn fold_path_within_depth(commitment: &str, path: &[ProofStep]) -> (r: Option<String>)
    ensures
        match r {
            Some(root) => path@.len() <= MAX_PROOF_DEPTH && root@ == folded(commitment@, path@),
            None => path@.len() > MAX_PROOF_DEPTH,
        },
{
    if path.len() > MAX_PROOF_DEPTH {
        None
    } else {
        Some(fold_path(commitment, path))
    }
}

/// Whether `path` is at most `MAX_PROOF_DEPTH` steps long and folds
/// `commitment` to `root`.
pub fn verify_inclusion(commitment: &str, path: &[ProofStep], root: &str) -> (r: bool)
    ensures
        r == included(commitment@, path@, root@),
{
    if path.len() > MAX_PROOF_DEPTH {
        return false;
    }
    let node = fold_path(commitment, path);
    let expected = root.to_owned();
    node == expected
}

/// An empty path folds to the leaf hash of the commitment.
pub proof fn lemma_empty_path_is_leaf(commitment: Seq<char>)
    ensures
        folded(commitment, Seq::empty()) == leaf_hash(commitment),
{
}

/// Extending a path by one step folds that step onto the previous root; the
/// direction flag puts the sibling on the left exactly when it is set.
pub proof fn lemma_fold_extends(commitment: Seq<char>, path: Seq<ProofStep>, step: ProofStep)
    ensures
        folded(commitment, path.push(step)) == (if step.sibling_is_left {
            node_hash(step.sibling@, folded(commitment, path))
        } else {
            node_hash(folded(commitment, path), step.sibling@)
        }),
{
    assert(path.push(step).drop_last() =~= path);
}

/// A path deeper than the cap is never accepted, whatever it folds to.
pub proof fn lemma_deep_paths_refused(commitment: Seq<char>, path: Seq<ProofStep>, root: Seq<char>)
    requires
        path.len() > MAX_PROOF_DEPTH,
    ensures
        !included(commitment, path, root),
{
}

/// No leaf preimage is an interior-node preimage, neither as text nor as the
/// UTF-8 bytes that are hashed: the second character is `0` for a leaf and
/// `1` for a node.
pub proof fn lemma_leaf_and_node_preimages_differ(c: Seq<char>, left: Seq<char>, right: Seq<char>)
    ensures
        leaf_preimage(c) != node_preimage(left, right),
        encode_utf8(leaf_preimage(c)) != encode_utf8(node_preimage(left, right)),
{
    assert(leaf_preimage(c)[1] == '0');
    assert(node_preimage(left, right)[1] == '1');
    if encode_utf8(leaf_preimage(c)) == encode_utf8(node_preimage(left, right)) {
        vstd::utf8::encode_utf8_decode_utf8(leaf_preimage(c));
        vstd::utf8::encode_utf8_decode_utf8(node_preimage(left, right));
    }
}

/// A path is accepted for a root exactly when it has at most 64 steps and
/// folds the commitment to that root; an empty path included.
pub proof fn lemma_included_exactly(commitment: Seq<char>, path: Seq<ProofStep>, root: Seq<char>)
    ensures
        included(commitment, path, root) <==> (path.len() <= 64 && folded(commitment, path) == root),
{
}

/// A batch of one record: the empty path is accepted for the root that is the
/// leaf hash, SHA-256 (in lowercase hexadecimal) over the UTF-8 of `00`
/// followed by the commitment.
pub proof fn lemma_single_leaf_included(commitment: Seq<char>)
    ensures
        included(commitment, Seq::empty(), hex_of(sha256(encode_utf8(seq!['0', '0'] + commitment)))),
{
}

/// When a path of fewer than 64 steps is accepted for a root, the path with
/// one more step is accepted for the node over that root and the step's
/// sibling: SHA-256 over the UTF-8 of `01`, the left child, the right child,
/// with the sibling on the left exactly when the step says so.
pub proof fn lemma_included_extends(commitment: Seq<char>, path: Seq<ProofStep>, root: Seq<char>, step: ProofStep)
    requires
        included(commitment, path, root),
        path.len() < 64,
    ensures
        included(
            commitment,
            path.push(step),
            if step.sibling_is_left {
                hex_of(sha256(encode_utf8(seq!['0', '1'] + step.sibling@ + root)))
            } else {
                hex_of(sha256(encode_utf8(seq!['0', '1'] + root + step.sibling@)))
            },
        ),
{
    assert(path.push(step).drop_last() =~= path);
    assert(path.push(step).last() == step);
}

/// A path of more than 64 steps is refused for every root.
pub proof fn lemma_paths_over_64_refused(commitment: Seq<char>, path: Seq<ProofStep>, root: Seq<char>)
    requires
        path.len() > 64,
    ensures
        !included(commitment, path, root),
{
}

} // verus!
