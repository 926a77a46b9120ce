//! What a decoded field is handed out as: its pictures and its metadata entry.
use crate::double::Double;
use std::sync::Arc;
use vstd::prelude::*;
use vstd::slice::slice_to_vec;

verus! {

/// The luma picture of a field: sixteen-bit samples, or the raw signal.
#[derive(Clone, Debug)]
pub enum LumaOutput {
    Encoded(Vec<u16>),
    Raw(Vec<crate::double::Single>),
}

/// Signal-to-noise measurements of a field, where they could be made.
#[derive(Clone, Copy, Debug)]
pub struct VitsMetrics {
    pub w_snr: Option<Double>,
    pub b_psnr: Option<Double>,
}

/// The dropouts of a field: the line, first and last sample of each.
#[derive(Debug)]
pub struct DropOuts {
    pub field_line: Vec<usize>,
    pub startx: Vec<usize>,
    pub endx: Vec<usize>,
}

/// The dropouts of a field as sequences.
pub struct DropOutRuns {
    pub field_line: Seq<usize>,
    pub startx: Seq<usize>,
    pub endx: Seq<usize>,
}

impl View for DropOuts {
    type V = DropOutRuns;

    open spec fn view(&self) -> DropOutRuns {
        DropOutRuns { field_line: self.field_line@, startx: self.startx@, endx: self.endx@ }
    }
}

impl Clone for DropOuts {
    fn clone(&self) -> (copy: Self)
        ensures
            copy@ == self@,
    {
        DropOuts {
            field_line: slice_to_vec(self.field_line.as_slice()),
            startx: slice_to_vec(self.startx.as_slice()),
            endx: slice_to_vec(self.endx.as_slice()),
        }
    }
}

/// The metadata entry of one field.
#[derive(Debug)]
pub struct FieldInfoEntry {
    pub is_first_field: bool,
    pub detected_first_field: bool,
    pub is_duplicate_field: bool,
    pub sync_conf: i64,
    pub seq_no: usize,
    pub disk_loc: Double,
    pub file_loc: i64,
    pub field_phase_id: i64,
    pub vits_metrics: VitsMetrics,
    pub drop_outs: Option<DropOuts>,
    pub decode_faults: Option<i64>,
}

/// A metadata entry with its dropouts as sequences.
pub struct FieldInfo {
    pub is_first_field: bool,
    pub detected_first_field: bool,
    pub is_duplicate_field: bool,
    pub sync_conf: i64,
    pub seq_no: usize,
    pub disk_loc: Double,
    pub file_loc: i64,
    pub field_phase_id: i64,
    pub vits_metrics: VitsMetrics,
    pub drop_outs: Option<DropOutRuns>,
    pub decode_faults: Option<i64>,
}

/// The sequences of a dropout list, where there is one.
pub open spec fn runs_of(drop_outs: Option<DropOuts>) -> Option<DropOutRuns> {
    match drop_outs {
        Some(list) => Some(list@),
        None => None,
    }
}

impl View for FieldInfoEntry {
    type V = FieldInfo;

    open spec fn view(&self) -> FieldInfo {
        FieldInfo {
            is_first_field: self.is_first_field,
            detected_first_field: self.detected_first_field,
            is_duplicate_field: self.is_duplicate_field,
            sync_conf: self.sync_conf,
            seq_no: self.seq_no,
            disk_loc: self.disk_loc,
            file_loc: self.file_loc,
            field_phase_id: self.field_phase_id,
            vits_metrics: self.vits_metrics,
            drop_outs: runs_of(self.drop_outs),
            decode_faults: self.decode_faults,
        }
    }
}

impl Clone for FieldInfoEntry {
    fn clone(&self) -> (copy: Self)
        ensures
            copy@ == self@,
    {
        let drop_outs: Option<DropOuts> = match &self.drop_outs {
            Some(list) => Some(list.clone()),
            None => None,
        };
        FieldInfoEntry {
            is_first_field: self.is_first_field,
            detected_first_field: self.detected_first_field,
            is_duplicate_field: self.is_duplicate_field,
            sync_conf: self.sync_conf,
            seq_no: self.seq_no,
            disk_loc: self.disk_loc,
            file_loc: self.file_loc,
            field_phase_id: self.field_phase_id,
            vits_metrics: self.vits_metrics,
            drop_outs,
            decode_faults: self.decode_faults,
        }
    }
}

/// The two pictures of a field.
#[derive(Debug)]
pub struct WriteablePicture {
    pub luma: LumaOutput,
    pub chroma: Option<Vec<u16>>,
}

/// A field ready to be written: its entry and its pictures, which copies of it
/// share.
#[derive(Debug)]
pub struct WriteableField {
    pub info: FieldInfoEntry,
    pub picture: Arc<WriteablePicture>,
    /// The phase ID that was read off the signal; `None` where the one in
    /// `info` was derived from the sequence number.
    pub field_phase_id_raw: Option<i64>,
}

/// A field ready to be written, with its entry as a [`FieldInfo`].
pub struct Written {
    pub info: FieldInfo,
    pub picture: WriteablePicture,
    pub field_phase_id_raw: Option<i64>,
}

impl View for WriteableField {
    type V = Written;

    open spec fn view(&self) -> Written {
        Written {
            info: self.info@,
            picture: *self.picture,
            field_phase_id_raw: self.field_phase_id_raw,
        }
    }
}

/// Calls `Arc::clone`: the new handle points to the same value as the old.
#[verifier::external_body]
fn share(picture: &Arc<WriteablePicture>) -> (handle: Arc<WriteablePicture>)
    ensures
        *handle == **picture,
{
    Arc::clone(picture)
}

impl Clone for WriteableField {
    fn clone(&self) -> (copy: Self)
        ensures
            copy@ == self@,
    {
        WriteableField {
            info: self.info.clone(),
            picture: share(&self.picture),
            field_phase_id_raw: self.field_phase_id_raw,
        }
    }
}

impl WriteableField {
    pub fn new(
        info: FieldInfoEntry,
        luma: LumaOutput,
        chroma: Option<Vec<u16>>,
        field_phase_id_raw: Option<i64>,
    ) -> (field: Self)
        ensures
            field@ == (Written {
                info: info@,
                picture: WriteablePicture { luma, chroma },
                field_phase_id_raw,
            }),
            field.info == info,
            field.field_phase_id_raw == field_phase_id_raw,
    {
        WriteableField {
            info,
            picture: Arc::new(WriteablePicture { luma, chroma }),
            field_phase_id_raw,
        }
    }

    pub fn luma(&self) -> (luma: &LumaOutput)
        ensures
            *luma == self@.picture.luma,
    {
        &self.picture.luma
    }

    pub fn chroma(&self) -> (chroma: Option<&[u16]>)
        ensures
            match self@.picture.chroma {
                Some(samples) => chroma matches Some(slice) && slice@ == samples@,
                None => chroma is None,
            },
    {
        match &self.picture.chroma {
            Some(samples) => Some(samples.as_slice()),
            None => None,
        }
    }
}

/// What a container of decoded fields says of all of them.
#[derive(Clone, Copy, Debug)]
pub struct DecoderMetadata {
    pub system: &'static str,
    pub field_width: usize,
    pub sample_rate: Double,
    pub black_16b_ire: Double,
    pub white_16b_ire: Double,
    pub field_height: usize,
    pub colour_burst_start: i64,
    pub colour_burst_end: i64,
    pub active_video_start: i64,
    pub active_video_end: i64,
}

/// The view of a field shows each thing in its place: the labels, the numbers, the
/// measurements and the three lists of dropouts of its entry, and its pictures.
pub proof fn law_views_show_everything(field: WriteableField)
    ensures
        field@.info.is_first_field == field.info.is_first_field,
        field@.info.detected_first_field == field.info.detected_first_field,
        field@.info.is_duplicate_field == field.info.is_duplicate_field,
        field@.info.sync_conf == field.info.sync_conf,
        field@.info.seq_no == field.info.seq_no,
        field@.info.disk_loc == field.info.disk_loc,
        field@.info.file_loc == field.info.file_loc,
        field@.info.field_phase_id == field.info.field_phase_id,
        field@.info.vits_metrics == field.info.vits_metrics,
        field@.info.decode_faults == field.info.decode_faults,
        field@.info.drop_outs is Some <==> field.info.drop_outs is Some,
        field.info.drop_outs matches Some(runs) ==> {
            &&& field@.info.drop_outs->0.field_line == runs.field_line@
            &&& field@.info.drop_outs->0.startx == runs.startx@
            &&& field@.info.drop_outs->0.endx == runs.endx@
        },
        field@.picture.luma == field.picture.luma,
        field@.picture.chroma == field.picture.chroma,
        field@.field_phase_id_raw == field.field_phase_id_raw,
{
}

} // verus!
