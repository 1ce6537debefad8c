use vstd::prelude::*;

pub mod accumulate;
pub mod adam;
pub mod agree;
pub mod attention;
pub mod bank;
pub mod batch;
pub mod calls;
pub mod capacity;
pub mod causality;
pub mod choice;
pub mod costs;
pub mod derivative;
pub mod descent;
pub mod determinism;
pub mod device;
pub mod embed;
pub mod exact;
pub mod framework;
pub mod function;
pub mod gradient;
pub mod graph;
pub mod increments;
pub mod index;
pub mod init;
pub mod layout;
pub mod lines;
pub mod live;
pub mod loss;
pub mod matmul;
pub mod matrices;
pub mod model;
pub mod motion;
pub mod motion_attention;
pub mod motion_blocks;
pub mod motion_embed;
pub mod motion_loss;
pub mod motion_norm;
pub mod network;
pub mod norm;
pub mod normal;
pub mod order;
pub mod outcomes;
pub mod padding;
pub mod plan;
pub mod pointwise;
pub mod prefix;
pub mod range;
pub mod reduce;
pub mod repeat;
pub mod rng;
pub mod rows;
pub mod sample;
pub mod sample_repeat;
pub mod scalar;
pub mod scratch;
pub mod shape;
pub mod spread;
pub mod tails;
pub mod tape;
pub mod tape_gpt;
pub mod tape_laws;
pub mod tape_repeat;
pub mod tape_sample;
pub mod tape_token;
pub mod tape_train;
pub mod tensor;
pub mod tensor_train;
pub mod text;
pub mod training;
pub mod turns;
pub mod twin_gradient;
pub mod twin_heads;
pub mod twin_motion;
pub mod twin_moves;
pub mod twin_network;
pub mod twin_parts;
pub mod twin_sample;
pub mod twins;
pub mod unmoved;

verus! {

} // verus!
