//! Dispatch of client requests to a view session, one at a time.
use vstd::prelude::*;
use crate::filter::{selected_rows, RowFilter};
use crate::format::{FormatOptions, FormattedValue};
use crate::profile::{profile_answers, ColumnProfileRequest, ProfileResult};
use crate::schema::{describes, get_schema, indices_in_range, ColumnSchema};
use crate::selection::{
    columns_in_range, delimiter, export_columns, export_rows, export_text, has_header, positions,
    renders_column, row_label, ArraySelection, ColumnSelection, ExportFormat, TableSelection,
};
use crate::sort::SortKey;
use crate::view::{same_filter, FilterResult, TableState, ViewSession};

verus! {

/// A request from the client.
pub enum BackendRequest {
    GetSchema { column_indices: Vec<usize> },
    GetState,
    SetRowFilters { filters: Vec<RowFilter> },
    SetSortColumns { sort_keys: Vec<SortKey> },
    GetDataValues { columns: Vec<ColumnSelection>, format_options: FormatOptions },
    GetRowLabels { selection: ArraySelection },
    GetColumnProfiles { profiles: Vec<ColumnProfileRequest>, format_options: FormatOptions },
    ExportDataSelection {
        selection: TableSelection,
        format: ExportFormat,
        format_options: FormatOptions,
    },
}

/// The reply to a request.
pub enum BackendReply {
    GetSchemaReply(Vec<ColumnSchema>),
    GetStateReply(TableState),
    SetRowFiltersReply(FilterResult),
    SetSortColumnsReply,
    GetDataValuesReply(Vec<Vec<FormattedValue>>),
    GetRowLabelsReply(Vec<String>),
    GetColumnProfilesReply(Vec<Vec<ProfileResult>>),
    ExportDataSelectionReply { data: String, format: ExportFormat },
}

/// `r` answers the read-only request `req` on session `s`.
pub open spec fn answers(s: ViewSession, req: BackendRequest, r: BackendReply) -> bool {
    match (req, r) {
        (BackendRequest::GetSchema { column_indices }, BackendReply::GetSchemaReply(cols)) => {
            let want = indices_in_range(column_indices@, s.table().columns@.len() as int);
            &&& cols@.len() == want.len()
            &&& forall|k: int|
                0 <= k < cols@.len() ==> describes(#[trigger] cols@[k], s.table().columns@, want[k] as int)
        },
        (BackendRequest::GetState, BackendReply::GetStateReply(st)) => {
            &&& st.table_shape.num_rows == s.view().len()
            &&& st.table_shape.num_columns == s.table().columns@.len()
            &&& st.table_unfiltered_shape.num_rows == s.table().num_rows
            &&& st.table_unfiltered_shape.num_columns == s.table().columns@.len()
            &&& st.num_row_filters == s.filters().len()
            &&& st.num_sort_keys == s.keys().len()
            &&& st.has_row_labels == s.table().row_labels is Some
        },
        (
            BackendRequest::GetDataValues { columns, format_options },
            BackendReply::GetDataValuesReply(vals),
        ) => {
            let want = columns_in_range(columns@, s.table().columns@.len());
            &&& vals@.len() == want.len()
            &&& forall|k: int|
                0 <= k < vals@.len() ==> renders_column(
                    (#[trigger] vals@[k])@,
                    s.table(),
                    s.view(),
                    want[k].column_index as int,
                    positions(want[k].spec, s.view().len()),
                    format_options,
                )
        },
        (BackendRequest::GetRowLabels { selection }, BackendReply::GetRowLabelsReply(labels)) => {
            let pos = positions(selection, s.view().len());
            &&& labels@.len() == pos.len()
            &&& forall|j: int|
                0 <= j < labels@.len() ==> (#[trigger] labels@[j])@ == row_label(
                    s.table(),
                    s.view()[pos[j] as int] as int,
                )
        },
        (
            BackendRequest::GetColumnProfiles { profiles, format_options },
            BackendReply::GetColumnProfilesReply(results),
        ) => {
            &&& results@.len() == profiles@.len()
            &&& forall|c: int|
                0 <= c < results@.len() ==> (#[trigger] results@[c])@.len()
                    == profiles@[c].profiles@.len() && forall|i: int|
                    0 <= i < results@[c]@.len() ==> profile_answers(
                        #[trigger] results@[c]@[i],
                        profiles@[c].profiles@[i],
                        s.table(),
                        s.view(),
                        profiles@[c].column_index as int,
                        format_options,
                    )
        },
        (
            BackendRequest::ExportDataSelection { selection, format, format_options },
            BackendReply::ExportDataSelectionReply { data, format: f2 },
        ) => {
            &&& f2 == format
            &&& data@ == export_text(
                s.table(),
                s.view(),
                export_rows(selection, s.view().len()),
                export_columns(selection, s.table().columns@.len()),
                has_header(selection),
                delimiter(format),
                format_options,
            )
        },
        _ => false,
    }
}

/// The request changes the filters or the sort keys.
pub open spec fn is_update(req: BackendRequest) -> bool {
    req is SetRowFilters || req is SetSortColumns
}

impl ViewSession {
    /// Handles one request to completion. A closed session sends no reply.
    /// Setting filters or sort keys replaces them and rebuilds the view;
    /// every other request leaves the session as it was.
    pub fn handle_request(&mut self, req: BackendRequest) -> (r: Option<BackendReply>)
        requires
            old(self).wf(),
        ensures
            final(self).wf(),
            old(self).is_closed() ==> r is None && *final(self) == *old(self),
            !old(self).is_closed() ==> r is Some,
            !old(self).is_closed() && !is_update(req) ==> *final(self) == *old(self) && answers(
                *old(self),
                req,
                r->0,
            ),
            !old(self).is_closed() ==> match req {
                BackendRequest::SetRowFilters { filters } => {
                    &&& final(self).table() == old(self).table()
                    &&& final(self).keys() == old(self).keys()
                    &&& final(self).filters().len() == filters@.len()
                    &&& forall|i: int|
                        0 <= i < filters@.len() ==> same_filter(
                            #[trigger] final(self).filters()[i],
                            filters@[i],
                        )
                    &&& r->0 matches BackendReply::SetRowFiltersReply(fr)
                        && fr.selected_num_rows == selected_rows(
                        old(self).table(),
                        final(self).filters(),
                    ).len()
                },
                BackendRequest::SetSortColumns { sort_keys } => {
                    &&& final(self).table() == old(self).table()
                    &&& final(self).filters() == old(self).filters()
                    &&& final(self).keys() == sort_keys@
                    &&& r->0 is SetSortColumnsReply
                },
                _ => true,
            },
    {
        if self.closed() {
            return None;
        }
        match req {
            BackendRequest::GetSchema { column_indices } => Some(
                BackendReply::GetSchemaReply(get_schema(self.source(), &column_indices)),
            ),
            BackendRequest::GetState => Some(BackendReply::GetStateReply(self.get_state())),
            BackendRequest::SetRowFilters { filters } => {
                let fr = self.set_row_filters(filters);
                Some(BackendReply::SetRowFiltersReply(fr))
            },
            BackendRequest::SetSortColumns { sort_keys } => {
                self.set_sort_columns(sort_keys);
                Some(BackendReply::SetSortColumnsReply)
            },
            BackendRequest::GetDataValues { columns, format_options } => Some(
                BackendReply::GetDataValuesReply(self.get_data_values(&columns, &format_options)),
            ),
            BackendRequest::GetRowLabels { selection } => Some(
                BackendReply::GetRowLabelsReply(self.get_row_labels(&selection)),
            ),
            BackendRequest::GetColumnProfiles { profiles, format_options } => {
                let mut out: Vec<Vec<ProfileResult>> = Vec::new();
                let mut c: usize = 0;
                while c < profiles.len()
                    invariant
                        self.wf(),
                        0 <= c <= profiles@.len(),
                        out@.len() == c,
                        forall|q: int|
                            0 <= q < c ==> (#[trigger] out@[q])@.len() == profiles@[q].profiles@.len()
                                && forall|i: int|
                                0 <= i < out@[q]@.len() ==> profile_answers(
                                    #[trigger] out@[q]@[i],
                                    profiles@[q].profiles@[i],
                                    self.table(),
                                    self.view(),
                                    profiles@[q].column_index as int,
                                    format_options,
                                ),
                    decreases profiles.len() - c,
                {
                    out.push(self.get_column_profiles(&profiles[c], &format_options));
                    c = c + 1;
                }
                Some(BackendReply::GetColumnProfilesReply(out))
            },
            BackendRequest::ExportDataSelection { selection, format, format_options } => {
                let data = self.export_data_selection(&selection, format, &format_options);
                Some(BackendReply::ExportDataSelectionReply { data, format })
            },
        }
    }
}

} // verus!
