use vstd::prelude::*;

use crate::log::{Action, ActionV};
use crate::paths::{digits_of, render_u64};

verus! {

/// The characters of a rendered boolean.
pub open spec fn bool_chars(b: bool) -> Seq<char> {
    if b {
        "true"@
    } else {
        "false"@
    }
}

/// Column names joined with commas.
pub open spec fn joined_names(names: Seq<Seq<char>>) -> Seq<char>
    decreases names.len(),
{
    if names.len() == 0 {
        Seq::empty()
    } else if names.len() == 1 {
        names[0]
    } else {
        joined_names(names.drop_last()) + ","@ + names.last()
    }
}

/// One action as a line of the persisted log format: a record kind followed
/// by its named fields, numbers in decimal.
pub open spec fn action_record(a: ActionV) -> Seq<char> {
    match a {
        ActionV::AddFile { stats, modification_time, data_change } => "add path="@ + stats.path
            + " size="@ + digits_of(stats.size as nat) + " rows="@ + digits_of(
            stats.row_count as nat,
        ) + " mtime="@ + digits_of(modification_time as nat) + " data_change="@ + bool_chars(
            data_change,
        ),
        ActionV::RemoveFile { path, deletion_time } => "remove path="@ + path + " dtime="@
            + digits_of(deletion_time as nat),
        ActionV::UpdateMetadata { schema, .. } => "metadata schema="@ + joined_names(schema),
    }
}

/// Renders one action as its log record line.
pub fn render_action(a: &Action) -> (s: String)
    ensures
        s@ == action_record(a@),
{
    match a {
        Action::AddFile { stats, modification_time, data_change } => {
            let mut s = String::new();
            s.append("add path=");
            s.append(stats.path.as_str());
            s.append(" size=");
            let d1 = render_u64(stats.size);
            s.append(d1.as_str());
            s.append(" rows=");
            let d2 = render_u64(stats.row_count);
            s.append(d2.as_str());
            s.append(" mtime=");
            let d3 = render_u64(*modification_time);
            s.append(d3.as_str());
            s.append(" data_change=");
            if *data_change {
                s.append("true");
            } else {
                s.append("false");
            }
            proof {
                assert(s@ =~= action_record(a@));
            }
            s
        },
        Action::RemoveFile { path, deletion_time } => {
            let mut s = String::new();
            s.append("remove path=");
            s.append(path.as_str());
            s.append(" dtime=");
            let d = render_u64(*deletion_time);
            s.append(d.as_str());
            proof {
                assert(s@ =~= action_record(a@));
            }
            s
        },
        Action::UpdateMetadata { schema, .. } => {
            let mut s = String::new();
            s.append("metadata schema=");
            let ghost names = schema@.map_values(|x: String| x@);
            let mut i: usize = 0;
            while i < schema.len()
                invariant
                    i <= schema.len(),
                    names == schema@.map_values(|x: String| x@),
                    names.len() == schema@.len(),
                    s@ == "metadata schema="@ + joined_names(names.take(i as int)),
                decreases schema.len() - i,
            {
                proof {
                    assert(names.take(i + 1).drop_last() =~= names.take(i as int));
                    assert(names.take(i + 1).last() == names[i as int]);
                    assert(names[i as int] == schema@[i as int]@);
                }
                if i > 0 {
                    s.append(",");
                }
                s.append(schema[i].as_str());
                proof {
                    if i == 0 {
                        assert(joined_names(names.take(1)) == names.take(1)[0]);
                        assert(s@ =~= "metadata schema="@ + joined_names(names.take(i + 1)));
                    } else {
                        assert(s@ =~= "metadata schema="@ + joined_names(names.take(i + 1)));
                    }
                }
                i = i + 1;
            }
            proof {
                assert(names.take(names.len() as int) =~= names);
                assert(s@ =~= action_record(a@));
            }
            s
        },
    }
}

} // verus!
