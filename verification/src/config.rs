//! Settings of the library.

use vstd::prelude::*;

verus! {

/// Whether log labels are painted with ANSI colours.
pub const DEBUG: bool = true;

/// The character that separates system names in a route description.
pub const ROUTE_SPLIT_CHAR: char = ',';

/// The start of every route-search address.
pub const ROUTE_SEARCH_URL_PREFIX: &'static str = "https://evemaps.dotlan.net/route/";

/// The end of every route-search address.
pub const ROUTE_SEARCH_URL_POSTFIX: &'static str = "";

} // verus!
