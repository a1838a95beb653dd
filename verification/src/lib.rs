//! Tab groups for a vertical tab sidebar: the group settings (groups, and
//! directory assignments resolved by longest matching directory) and the
//! partition of the visible tabs into ungrouped rows and group sections.

pub mod tab_settings;
pub mod grouping;
pub mod grouping_laws;
