//! Calendar timestamps for log records: conversion between Unix instants and
//! calendar fields, parsing of the three HTTP date layouts, and one fixed text form.

pub mod calendar;
pub mod date;
pub mod parse;
pub mod text;

pub use date::LogDate;
pub use parse::DateError;
