# jixel

The decision logic of a JPEG XL encoder, written in Rust and verified with
[Verus](https://github.com/verus-lang/verus), and the logic of `meanstats`, a tool
that measures encoders over a folder of images.

Every function of the library states what it computes in `requires` and `ensures`
clauses, and Verus proves the code against them. The cost model of the encoder works
with numbers that the library never looks into: it asks of them only what the trait
`amount::Amount` offers, so the same code runs on the machine's floating point and on
the library's own fixed point format `amount::Fixed`.

## What is in it

Strategies and maps
: `strategy`, `strategy_map`, `tiling`: transform sizes, maps of them, and what it
  means that a map tiles a group. `bands`, `scope`, `tuning`: how work is cut up, what
  each speed searches, and the factors at a distance.

Choosing transforms
: `super_block`, `merge`, `acceptance`, `selection`, `leaf_first`, `sub8`, `pass64`: from
  single blocks up to 64-pixel transforms. `partition`, `mosaic`, `rerank`,
  `rerank_band`, `upgrade`: second thoughts by reconstruction. `quant_field`,
  `quant_refine`: one quantizer for each transform. `fill` and `filling` put the stages
  together.

Laws
: The modules that end in `_laws`, and `upgrade_order`: every stage keeps the map a
  tiling, bands do not change the outcome, and more.

Headers and contexts
: `context`, `context_plan`, `group_cost`: entropy contexts. `matrix`,
  `matrix_sites`: which tables of weights are worth their header.

Kernels
: `transform`, `small_transform`, `forward`, `dc`, `recon`, `lanes`, `cfl`, `cost`,
  `ssim`, `region_stats`, `plane_stats`, `structure`, `opsin`, `adaptive_quant`,
  `aq_field`, `xyb`, `modular`, `spline`, `fast_math`.

Measuring
: `text`, `numeral`, `settings`, `series`, `metrics`, `jpeg`, `jpeg_frame`,
  `jpeg_scan`, `container`, `harness`.

`app/` holds the `meanstats` program around the library: processes, files and charts.
`tests/` runs the library.
