//! Knowledge bundles of software projects: what is declared in a project's
//! sources, how it is related, what changed, and pages that say so.
//!
//! A project is scanned ([`project`], [`packages`]), its files are read
//! ([`source`], [`extraction`], [`cache`]) and its calls resolved ([`calls`],
//! [`resolution`], [`protocol`], [`uri`], [`probing`]) into concepts
//! ([`model`], [`naming`], [`analysis`], [`linkage`], [`determinism`]).
//! Concepts are written as pages ([`bundle`], [`html`], [`documents`],
//! [`wrapping`], [`dita`], [`xml`], [`nesting`], [`readback`], [`pages`],
//! [`filing`], [`agents`]), queried as a graph ([`graph`], [`reach`], [`owners`], [`arch`],
//! [`communities`], [`partition`], [`newman`], [`patterns`], [`features`]),
//! compared ([`diff`], [`impact`], [`summary`], [`changes`], [`freshness`],
//! [`gates`]) and described with the help of a model ([`enrich`], [`links`],
//! [`asking`]). [`config`] and [`commands`] hold what the command line decides
//! and prints.
//!
//! Reading files, starting processes and talking to endpoints is left to the
//! caller, which hands in plain values.

pub mod agents;
pub mod analysis;
pub mod arch;
pub mod asking;
pub mod bundle;
pub mod cache;
pub mod callpath;
pub mod calls;
pub mod changes;
pub mod commands;
pub mod communities;
pub mod config;
pub mod data;
pub mod determinism;
pub mod diff;
pub mod digraph;
pub mod dita;
pub mod documents;
pub mod enrich;
pub mod extraction;
pub mod features;
pub mod filing;
pub mod freshness;
pub mod gates;
pub mod graph;
pub mod grouping;
pub mod html;
pub mod impact;
pub mod linkage;
pub mod links;
pub mod model;
pub mod modularity;
pub mod naming;
pub mod nesting;
pub mod newman;
pub mod order;
pub mod owners;
pub mod ownership;
pub mod packages;
pub mod pages;
pub mod partition;
pub mod patterns;
pub mod probing;
pub mod project;
pub mod protocol;
pub mod reach;
pub mod readback;
pub mod render;
pub mod resolution;
pub mod scc;
pub mod source;
pub mod summary;
pub mod text;
pub mod uri;
pub mod wrapping;
pub mod xml;
