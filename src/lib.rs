//! Logic networks (AIG, MIG and related gate families) with a verified, iterative transfer
//! protocol between network sources and sinks, a backward-edge index, and a rewrite pipeline
//! through egg e-graphs.

mod adapt;
mod backwards;
mod egraph;
mod flat;
mod fxmap;
mod iso;
mod mig;
mod network;
mod node;
mod rewrite;
mod signal;
mod text;
mod transfer;

pub use adapt::{AdaptedReceiver, MappedReceiver, adapts_kinds};
pub use backwards::{
    ComputedNetworkWithBackwardEdges, NetworkWithBackwardEdges, consumer_list, leaf_list, list_of,
};
pub use egraph::{
    Cost, EGraphReceiver, Graph, TermNode, added, class_for, egraph_nodes, egraph_size, egraph_unmerged,
    enode_for, graph_room, grown, lemma_equal_nodes_share, rule_valid, term_shaped, term_view,
};
pub use flat::{FlatNetwork, FlatView, index_signal};
pub use iso::{
    compose, image_of, isomorphic, isomorphic_via, lemma_rebuilt_isomorphic, lemma_round_trip,
    lemma_send_rebuilds, rebuilt,
};
pub use mig::{
    Mig, MigRewriterCallback, MigRewriterFFI, MigVariant, mig_of, mig_term_ok, stream_terms,
    term_migs, term_root, terms_len, terms_migs,
};
pub use network::{
    Network, acyclic, closed, lemma_input_reachable, lemma_output_reachable, lemma_rank_weight,
    lemma_rank_weight_positive, lemma_reachable_finite, output_closed, rank_weight, ranked,
    reachable, reachable_nodes, reachable_set,
};
pub use node::{Family, Gate, MAX_FANIN, Node, NodeKind, NodeView};
pub use rewrite::{
    Rule, RewriteError, lemma_ordered_network, make_rules, network_of_terms, position_for,
    rewrite_network, rules_valid, stands_for_node, term_count, term_ok, term_position_decoded, terms_count,
    terms_decoded, terms_to_network, terms_view, topologically_ordered,
};
pub use signal::{
    ID_LIMIT, Id, NOT_MASK, Signal, inverted_signal, lemma_double_inversion, lemma_replace_inversion,
    replaced, signal_of,
};
pub use text::{
    Op, decimal, digit_char, digit_value, digits_value, op_arity, op_text, op_to_text, parsed_u64,
    id_parameters, parameter_list, parameters, signal_parameters, text_op, text_to_op,
};
pub use transfer::{
    CapacityError, Receiver, create_constant, issued_id, lemma_create_count, lemma_outputs_issued,
    lemma_structural_sharing, listed_before, map_node, map_outputs, map_signal, send, transfer,
    transfer_done, transfer_log, transferred,
};
