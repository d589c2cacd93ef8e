//! Everything that is written once for every grid size.

pub mod masks;
pub mod geometry;
pub mod peer_tables;
pub mod solutions;
pub mod grid;
pub mod backtracker;
pub mod rng;
pub mod search;
pub mod bitboard;
pub mod sorting;
pub mod chain_model;
pub mod csp_tables;
pub mod glabel_tables;
pub mod combos;
pub mod carving;
pub mod generator;
pub mod techniques;
pub mod rater;
pub mod reverse_construct;
pub mod text;
pub mod fish_reverse;
pub mod fish_laws;
pub mod guided_removal;
pub mod als_xz_reverse;
pub mod als_laws;
pub mod unit_places;
pub mod hidden_quad_reverse;
pub mod quad_laws;
pub mod stamped;
pub mod aic_graph;
pub mod aic_reverse;
pub mod chain_laws;
pub mod chain_rating;
pub mod gbraid_reverse;
pub mod cfc_reverse;
pub mod mutation;
pub mod dfc_reverse;
pub mod search_laws;
pub mod share_laws;
pub mod reading_laws;
pub mod group_laws;
pub mod draw_laws;
pub mod placement_laws;
pub mod removal_laws;
pub mod spec;
pub mod generator_constrained;
pub mod constrained_laws;
pub mod canonical;
pub mod form_laws;
pub mod hash_laws;
pub mod peer_count;
