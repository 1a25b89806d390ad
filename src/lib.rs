//! An optimizing compiler and bytecode virtual machine for the eight-instruction
//! tape language: a tree of instructions, three rewriting passes over it, a
//! lowering to flat bytecode with resolved jumps, and a tape machine.

pub mod ir;
pub mod coalesce;
pub mod zero_loop;
pub mod fusion;
pub mod optimizers;
pub mod bytecode;
pub mod vm;
pub mod token;
pub mod tokenizer;
pub mod parser;
pub mod pipeline;
pub mod transpilers;
pub mod equivalence;
pub mod semantics;
pub mod fusion_semantics;
