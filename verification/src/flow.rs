//! Confirmation flow between the catalog and the modal stack.
//!
//! Deleting an entry is guarded by a confirmation: an unchecked
//! request pushes a warning window carrying the checked request as
//! its deferred action, and confirming that window releases the
//! action, whose application removes the entry. The stack never runs
//! an action itself; these functions move the released value.

use crate::catalog::{catalog_wf, index_of_id, AppData, AppDataView};
use crate::modal::{
    DeferredAction, WindowContent, WindowContentView, WindowManager, WindowMessage, WindowType,
};
use vstd::prelude::*;
use vstd::string::StringExecFns;

verus! {

/// The warning window a delete request pushes: it asks for
/// confirmation and carries the checked delete as deferred action.
pub open spec fn delete_warning(modal_id: u64, entry_id: u64) -> WindowContentView {
    WindowContentView {
        id: modal_id,
        window_type: WindowType::Warning,
        title: "Delete entry?"@,
        content: "This action cannot be undone."@,
        window_width: None,
        show_cancel: true,
        show_okay: true,
        on_confirm: Some(DeferredAction::DeleteEntry { entry_id, checked: true }),
    }
}

/// What removing `entry_id` leaves of the catalog: the entry gone if
/// it was present, everything else — order included — unchanged.
pub open spec fn removed_entry(before: AppDataView, after: AppDataView, entry_id: u64) -> bool {
    &&& after.version == before.version
    &&& after.next_id == before.next_id
    &&& index_of_id(before.entries, entry_id) == -1 ==> after == before
    &&& index_of_id(before.entries, entry_id) >= 0 ==> after.entries == before.entries.remove(
        index_of_id(before.entries, entry_id),
    )
}

/// Request deletion of the entry with `entry_id`.
///
/// A checked request removes the entry at once (a no-op when the id
/// is absent). An unchecked request changes nothing in the catalog
/// and pushes the warning window, with `modal_id` as its id, whose
/// deferred action is the checked delete of the same entry.
pub fn request_delete(
    data: &mut AppData,
    stack: &mut WindowManager,
    modal_id: u64,
    entry_id: u64,
    checked: bool,
)
    requires
        catalog_wf(old(data)@),
    ensures
        catalog_wf(final(data)@),
        checked ==> final(stack)@ == old(stack)@ && removed_entry(
            old(data)@,
            final(data)@,
            entry_id,
        ),
        !checked ==> final(data)@ == old(data)@ && final(stack)@ == old(stack)@.push(
            delete_warning(modal_id, entry_id),
        ),
{
    if checked {
        data.remove(entry_id);
    } else {
        let w = WindowContent::new(
            modal_id,
            WindowType::Warning,
            String::from_str("Delete entry?"),
            String::from_str("This action cannot be undone."),
            None,
            true,
            true,
        ).with_confirm(DeferredAction::DeleteEntry { entry_id, checked: true });
        stack.add_window(w);
    }
}

/// Apply a released deferred action to the catalog.
///
/// A checked delete removes its entry; an unchecked one re-enters
/// the confirmation flow, pushing the warning window under
/// `modal_id`.
pub fn apply_action(
    data: &mut AppData,
    stack: &mut WindowManager,
    modal_id: u64,
    action: DeferredAction,
)
    requires
        catalog_wf(old(data)@),
    ensures
        catalog_wf(final(data)@),
        match action {
            DeferredAction::DeleteEntry { entry_id, checked } => {
                &&& checked ==> final(stack)@ == old(stack)@ && removed_entry(
                    old(data)@,
                    final(data)@,
                    entry_id,
                )
                &&& !checked ==> final(data)@ == old(data)@ && final(stack)@ == old(
                    stack,
                )@.push(delete_warning(modal_id, entry_id))
            },
        },
{
    match action {
        DeferredAction::DeleteEntry { entry_id, checked } => {
            request_delete(data, stack, modal_id, entry_id, checked);
        },
    }
}

/// Take the confirm path on the top window: pop it, release its
/// deferred action, apply the action, and hand it back.
///
/// On an empty stack nothing happens. A released checked delete
/// removes its entry from the catalog; an unchecked one pushes the
/// warning window, with `modal_id` as its id, onto the remaining
/// stack. A window without an action only gets popped.
pub fn confirm_top(data: &mut AppData, stack: &mut WindowManager, modal_id: u64) -> (r: Option<
    DeferredAction,
>)
    requires
        catalog_wf(old(data)@),
    ensures
        catalog_wf(final(data)@),
        old(stack)@.len() == 0 ==> final(stack)@ == old(stack)@ && final(data)@ == old(data)@ && r
            is None,
        old(stack)@.len() > 0 ==> {
            &&& r == old(stack)@.last().on_confirm
            &&& (r is None ==> final(stack)@ == old(stack)@.drop_last() && final(data)@ == old(
                data,
            )@)
            &&& (match r {
                Some(action) => match action {
                    DeferredAction::DeleteEntry { entry_id, checked } => {
                        &&& checked ==> final(stack)@ == old(stack)@.drop_last()
                            && removed_entry(old(data)@, final(data)@, entry_id)
                        &&& !checked ==> final(data)@ == old(data)@ && final(stack)@ == old(
                            stack,
                        )@.drop_last().push(delete_warning(modal_id, entry_id))
                    },
                },
                None => true,
            })
        },
{
    match stack.confirm_window() {
        Some(action) => {
            apply_action(data, stack, modal_id, action);
            Some(action)
        },
        None => None,
    }
}

/// React to the user's answer on the top window.
///
/// An okay answer takes the confirm path (`confirm_top`); cancel and
/// close only pop the window — its deferred action, if any, is
/// dropped unreleased. Each popped window is done with: it is never
/// reused.
pub fn handle_window_message(
    data: &mut AppData,
    stack: &mut WindowManager,
    modal_id: u64,
    message: WindowMessage,
) -> (r: Option<DeferredAction>)
    requires
        catalog_wf(old(data)@),
    ensures
        catalog_wf(final(data)@),
        message != WindowMessage::Response(true) ==> {
            &&& final(data)@ == old(data)@
            &&& r is None
            &&& old(stack)@.len() == 0 ==> final(stack)@ == old(stack)@
            &&& old(stack)@.len() > 0 ==> final(stack)@ == old(stack)@.drop_last()
        },
        message == WindowMessage::Response(true) ==> {
            &&& (old(stack)@.len() == 0 ==> final(stack)@ == old(stack)@ && final(data)@ == old(
                data,
            )@ && r is None)
            &&& (old(stack)@.len() > 0 ==> {
                &&& r == old(stack)@.last().on_confirm
                &&& (r is None ==> final(stack)@ == old(stack)@.drop_last() && final(data)@
                    == old(data)@)
                &&& (match r {
                    Some(action) => match action {
                        DeferredAction::DeleteEntry { entry_id, checked } => {
                            &&& checked ==> final(stack)@ == old(stack)@.drop_last()
                                && removed_entry(old(data)@, final(data)@, entry_id)
                            &&& !checked ==> final(data)@ == old(data)@ && final(stack)@ == old(
                                stack,
                            )@.drop_last().push(delete_warning(modal_id, entry_id))
                        },
                    },
                    None => true,
                })
            })
        },
{
    match message {
        WindowMessage::Response(true) => confirm_top(data, stack, modal_id),
        WindowMessage::Response(false) => {
            stack.remove_window();
            None
        },
        WindowMessage::Close => {
            stack.remove_window();
            None
        },
    }
}

} // verus!
