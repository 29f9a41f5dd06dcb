# cfg_construct

Control flow graphs built from basic blocks, with dominance analysis,
dominance frontiers and natural loop detection, verified with Verus.

Layout of `src/`:

- `basic_block.rs`: block identifiers, instructions, basic blocks.
- `cfg.rs`: the graph, its construction, exit blocks and reverse postorder.
- `paths.rs`: walks along predecessor and successor lists, reachability,
  path dominance.
- `boolvec.rs`: rows of booleans used as sets of block indices.
- `dominance.rs`: dominator sets (greatest solution of the dominator
  equations) and immediate dominators; `dominance_laws.rs` proves they are
  path dominance and the laws that follow.
- `frontier.rs`: dominance frontiers; `frontier_laws.rs` proves what they hold.
- `loop_detect.rs`: natural loops and nesting depths; `loop_laws.rs` proves
  that loops match back edges and that headers dominate their bodies.
