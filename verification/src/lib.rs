//! Browsing model for sysstat history: the metric screens, the samples
//! that sadf reports, and the state of the viewer that walks them.

pub mod view;
pub mod text;
pub mod report;
pub mod sorted;
pub mod app;
pub mod series;
pub mod labels;
