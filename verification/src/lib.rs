//! Decision logic of a JPEG XL encoder.
pub mod amount;
pub mod fixed_laws;
pub mod context;
pub mod strategy;
pub mod strategy_map;
pub mod tiling;
pub mod context_plan;
pub mod plan_laws;
pub mod bands;
pub mod merge;
pub mod partition;
pub mod mosaic;
pub mod cost_map;
pub mod rerank;
pub mod rerank_band;
pub mod rerank_laws;
pub mod upgrade;
pub mod upgrade_laws;
pub mod upgrade_order;
pub mod tuning;
pub mod tuning_laws;
pub mod quant_field;
pub mod quant_laws;
pub mod quant_refine;
pub mod matrix;
pub mod matrix_sites;
pub mod matrix_laws;
pub mod scope;
pub mod super_block;
pub mod choice_laws;
pub mod selection;
pub mod transform;
pub mod transform_laws;
pub mod container;
pub mod harness;
pub mod selection_laws;
pub mod leaf_first;
pub mod leaf_first_laws;
pub mod scope_laws;
pub mod saved_laws;
pub mod agreement_laws;
pub mod selection_band_laws;
pub mod row_laws;
pub mod sub8;
pub mod pass64;
pub mod pass64_laws;
pub mod fill;
pub mod fill_laws;
pub mod filling_laws;
pub mod filling;
pub mod stage_band_laws;
pub mod filling_band_laws;
pub mod band_laws;
pub mod numeral;
pub mod opsin;
pub mod fast_math;
pub mod acceptance;
pub mod adaptive_quant;
pub mod adaptive_laws;
pub mod aq_field;
pub mod small_transform;
pub mod cover_laws;
pub mod dc;
pub mod forward;
pub mod modular;
pub mod lanes;
pub mod sum_laws;
pub mod grid_laws;
pub mod cfl;
pub mod cfl_laws;
pub mod recon;
pub mod recon_laws;
pub mod ssim;
pub mod region_stats;
pub mod region_laws;
pub mod xyb;
pub mod plane_stats;
pub mod structure;
pub mod structure_laws;
pub mod spline;
pub mod spline_laws;
pub mod text;
pub mod text_laws;
pub mod settings;
pub mod series;
pub mod metrics;
pub mod measure_laws;
pub mod jpeg_frame;
pub mod jpeg_scan;
pub mod jpeg;
pub mod group_cost;
pub mod entropy_laws;
pub mod cost;
