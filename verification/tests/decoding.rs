use tape_decode::blocks::{Window, BLOCKCUT, BLOCKSIZE};
use tape_decode::decoder::{
    Action, ColorSystem, Decoder, DecoderSpec, Description, Event, LineSystem, LumaPlan, Needed,
    SignalMeasures,
};
use tape_decode::double::{Double, Single};
use tape_decode::field::{DecodeFieldResult, DecodedField, InterFieldState};
use tape_decode::field_order::FieldOrderAction;
use tape_decode::info::{DropOuts, LumaOutput, VitsMetrics, WriteableField};
use tape_decode::levels::OutputLevel;

fn double(value: f64) -> Double {
    Double::from_bits(value.to_bits())
}

fn value(number: Double) -> f64 {
    f64::from_bits(number.bits)
}

fn single(value: f32) -> Single {
    Single::from_bits(value.to_bits())
}

fn sample(number: Single) -> f32 {
    f32::from_bits(number.bits)
}

/// To one digit behind the point.
fn tenths(value: f64) -> f64 {
    (value * 10.0).round_ties_even() / 10.0
}

const USABLE: usize = 30_720;
const READLEN: usize = 100_000;

fn spec(field_order_action: FieldOrderAction) -> DecoderSpec {
    DecoderSpec {
        readlen: READLEN,
        usable_blocksize: USABLE,
        outlinelen: 910,
        bytes_per_field: FIELD as usize,
        do_dod: true,
        field_order_action,
        track_phase: Some(1),
        export_raw_tbc: false,
        y_comb: single(0.0),
        ire0_adjust: false,
        frame_lines: LineSystem::Line525,
        color_system: ColorSystem::Other,
    }
}

/// A field of the recording: where it starts, whether it was detected as a first
/// field, and whether it is valid.
#[derive(Clone, Copy)]
struct Recorded {
    start: f64,
    first: Option<bool>,
    valid: bool,
}

fn first(start: f64) -> Recorded {
    Recorded { start, first: Some(true), valid: true }
}

fn second(start: f64) -> Recorded {
    Recorded { start, first: Some(false), valid: true }
}

/// Samples from one field to the next.
const FIELD: f64 = 50_000.0;

/// The surroundings of a decoder: a recording, and what was asked of it.
struct Recording {
    fields: Vec<Recorded>,
    found: usize,
    predecoded: Vec<(usize, usize, bool)>,
    prevfields: Vec<Option<i64>>,
    fail_at: Option<usize>,
    steps: usize,
}

impl Recording {
    fn new(fields: Vec<Recorded>) -> Self {
        Recording {
            fields,
            found: 0,
            predecoded: Vec::new(),
            prevfields: Vec::new(),
            fail_at: None,
            steps: 0,
        }
    }

    fn field(&self, number: usize) -> DecodedField<usize> {
        let recorded = self.fields[number];
        DecodedField {
            data: number,
            prevfield: None,
            readloc: recorded.start as i64,
            inlinelen: double(2560.0),
            outlinelen: 910,
            outlinecount: 263,
            ire0_backporch: (74, 124),
            wow_level_adjust_smoothing: Single::from_bits(0),
            spline_degree: 3,
            is_first_field: recorded.first,
            field_number: number as i64,
            linelocs: None,
            lineoffset: 0,
            linecount: None,
            out_scale: Some(double(2.0)),
            field_phase_id: None,
            phase_adjust_median: double(0.0),
            valid: recorded.valid,
            sync_confidence: 90,
            wow_analysis: Some((double(1.0), double(1.0))),
        }
    }

    /// What comes of an action.
    fn react(&mut self, action: Action<usize>) -> Event<usize> {
        self.steps += 1;
        let mut state = InterFieldState::new(Some(1));
        state.prev_first_field = self.found as i64;
        if self.fail_at == Some(self.steps) {
            return Event::Failed { inter_field_state: state };
        }
        match action {
            Action::Locate { fdoffset, offset } => {
                let toffset = value(fdoffset) + offset.map_or(0.0, value);
                Event::Located {
                    toffset: double(toffset),
                    from: double(toffset - BLOCKCUT as f64),
                }
            }
            Action::Predecode { plan, available, complete, prevfield, .. } => {
                self.predecoded.push((plan.requested_begin, available, complete));
                self.prevfields.push(prevfield.map(|field| field.field_number));
                let result = if complete {
                    let field = self.field(self.found);
                    let here = self.fields[self.found].start;
                    self.found += 1;
                    let next = self.fields.get(self.found).map_or(here + FIELD, |f| f.start);
                    Some(DecodeFieldResult { field, offset: double(next - here) })
                } else {
                    None
                };
                Event::Predecoded { result, inter_field_state: state }
            }
            Action::RenderLuma { field } => {
                assert!(field.wow_analysis.is_none());
                let luma = LumaOutput::Encoded(vec![field.data as u16]);
                Event::RenderedLuma { field, luma }
            }
            Action::RenderChroma { field } => {
                let chroma = Some(vec![100 + field.data as u16]);
                Event::RenderedChroma { field, chroma }
            }
            Action::Describe { field, detect_dropouts } => {
                assert!(field.prevfield.is_none());
                assert!(detect_dropouts);
                let lines = if field.data == 1 { vec![7] } else { vec![] };
                Event::Described {
                    description: Description {
                        sync_conf: field.sync_confidence,
                        drop_outs: DropOuts {
                            field_line: lines.clone(),
                            startx: lines.clone(),
                            endx: lines,
                        },
                        vits_metrics: VitsMetrics { w_snr: None, b_psnr: Some(double(1.0)) },
                    },
                }
            }
            Action::Return { .. } | Action::Abort => unreachable!(),
        }
    }

    /// One call on a window; `None` where it is aborted.
    fn call(
        &mut self,
        decoder: &mut Decoder<usize>,
        start: u64,
        len: usize,
        final_chunk: bool,
    ) -> Option<(Needed, Vec<WriteableField>)> {
        let window = Window { data_start: start, len, final_chunk };
        let mut event = Event::Start { window };
        loop {
            assert!(decoder.accepts(&event));
            match decoder.decode(event) {
                Action::Return { needed, fields } => return Some((needed, fields)),
                Action::Abort => return None,
                action => event = self.react(action),
            }
        }
    }
}

/// The labels of a field: its order, the detected one, whether it is a duplicate,
/// its confidence, number, phase and faults, and its picture.
fn seen(fields: &[WriteableField]) -> Vec<(bool, bool, bool, i64, usize, i64, Option<i64>, u16)> {
    fields
        .iter()
        .map(|field| {
            let picture = match field.luma() {
                LumaOutput::Encoded(samples) => samples[0],
                LumaOutput::Raw(_) => unreachable!(),
            };
            assert_eq!(field.chroma().unwrap(), &[100 + picture]);
            let info = &field.info;
            (
                info.is_first_field,
                info.detected_first_field,
                info.is_duplicate_field,
                info.sync_conf,
                info.seq_no,
                info.field_phase_id,
                info.decode_faults,
                picture,
            )
        })
        .collect()
}

/// Enough input for every field of a recording of up to ten.
const LONG: usize = 2_000_000;

/// All fields of a recording, up to the wait for more input.
fn decode_all(action: FieldOrderAction, fields: Vec<Recorded>) -> Vec<WriteableField> {
    let count = fields.len();
    let mut recording = Recording::new(fields);
    let mut decoder = Decoder::new(spec(action), double(0.0));
    // One look at the input is made past the last field that is written.
    let last = recording.fields[count - 1].start as usize;
    let begin = (last - last.min(BLOCKCUT)) / BLOCKSIZE * BLOCKSIZE;
    let end = (begin + 5 * BLOCKSIZE) / USABLE * USABLE + BLOCKSIZE;
    let (needed, fields) = recording.call(&mut decoder, 0, end, false).unwrap();
    assert!(matches!(needed, Needed::From(_)));
    fields
}

#[test]
fn alternating_fields_pass_through() {
    let fields = (0..4)
        .map(|k| if k % 2 == 0 { first(k as f64 * FIELD) } else { second(k as f64 * FIELD) })
        .collect();
    let found = decode_all(FieldOrderAction::Detect, fields);
    assert_eq!(
        seen(&found),
        vec![
            (true, true, false, 90, 1, 1, None, 0),
            (false, false, false, 90, 2, 2, None, 1),
            (true, true, false, 90, 3, 3, None, 2),
        ]
    );
    for field in &found {
        assert_eq!(value(field.info.disk_loc), field.info.file_loc as f64 / FIELD);
    }
    assert_eq!(value(found[2].info.disk_loc), 2.0);
    assert_eq!(found[2].info.file_loc, 100_000);
    assert!(found[0].info.drop_outs.is_none());
    assert_eq!(found[1].info.drop_outs.as_ref().unwrap().field_line, vec![7]);
    assert_eq!(found[0].info.vits_metrics.b_psnr, Some(double(1.0)));
    assert_eq!(found[0].field_phase_id_raw, None);
}

#[test]
fn a_recording_begins_with_a_first_field() {
    let unknown = Recorded { start: 2.0 * FIELD, first: None, valid: true };
    let found = decode_all(
        FieldOrderAction::Detect,
        vec![second(0.0), second(FIELD), unknown, first(3.0 * FIELD), second(4.0 * FIELD), first(5.0 * FIELD)],
    );
    assert_eq!(
        seen(&found),
        vec![
            (true, true, false, 90, 1, 1, None, 3),
            (false, false, false, 90, 2, 2, None, 4),
        ]
    );
}

#[test]
fn invalid_fields_are_passed_over() {
    let broken = Recorded { start: FIELD, first: Some(false), valid: false };
    let mut recording = Recording::new(vec![
        first(0.0),
        broken,
        second(2.0 * FIELD),
        first(3.0 * FIELD),
        second(4.0 * FIELD),
    ]);
    let mut decoder = Decoder::new(spec(FieldOrderAction::Detect), double(0.0));
    let (_, found) = recording.call(&mut decoder, 0, 400_000, false).unwrap();
    assert_eq!(
        seen(&found).iter().map(|field| field.7).collect::<Vec<_>>(),
        vec![0, 2, 3]
    );
    // An invalid field tells the next one nothing.
    assert_eq!(recording.prevfields, vec![None, Some(0), None, Some(2), Some(3)]);
}

#[test]
fn skipped_fields_are_made_up_for() {
    let fields = vec![
        first(0.0),
        second(FIELD),
        second(3.0 * FIELD),
        first(4.0 * FIELD),
        second(5.0 * FIELD),
    ];
    let found = decode_all(FieldOrderAction::Detect, fields.clone());
    assert_eq!(
        seen(&found),
        vec![
            (true, true, false, 90, 1, 1, None, 0),
            (false, false, false, 90, 2, 2, None, 1),
            // The last first field once more, with the number it had.
            (true, true, false, 90, 1, 1, None, 0),
            (false, false, true, 0, 3, 2, Some(4), 2),
            (true, true, false, 90, 5, 1, None, 3),
        ]
    );
    let found = decode_all(FieldOrderAction::Drop, fields.clone());
    assert_eq!(
        seen(&found),
        vec![
            (true, true, false, 90, 1, 1, None, 0),
            (false, false, false, 90, 2, 2, None, 1),
            (true, true, false, 90, 3, 3, None, 3),
        ]
    );
    let found = decode_all(FieldOrderAction::Flip, fields);
    assert_eq!(
        seen(&found),
        vec![
            (true, true, false, 90, 1, 1, None, 0),
            (false, false, false, 90, 2, 2, None, 1),
            (true, false, false, 0, 3, 2, Some(4), 2),
            (false, true, false, 0, 4, 1, Some(4), 3),
        ]
    );
}

#[test]
fn progressive_fields_are_relabelled() {
    let fields = (0..5).map(|k| first(k as f64 * FIELD)).collect();
    let found = decode_all(FieldOrderAction::Flip, fields);
    assert_eq!(
        seen(&found),
        vec![
            (true, true, false, 90, 1, 1, None, 0),
            // Nothing stands before the first entry that was detected as first.
            (false, true, false, 0, 2, 3, Some(4), 1),
            (true, true, false, 90, 3, 3, None, 2),
            (false, true, false, 10, 4, 1, Some(1), 3),
        ]
    );
}

#[test]
fn there_may_be_nothing_to_repeat() {
    let found = decode_all(
        FieldOrderAction::Duplicate,
        vec![first(0.0), first(2.0 * FIELD), second(3.0 * FIELD), first(4.0 * FIELD)],
    );
    assert_eq!(
        seen(&found),
        vec![
            (true, true, false, 90, 1, 1, None, 0),
            (false, false, false, 90, 2, 2, None, 2),
        ]
    );
}

#[test]
fn repairs_take_turns() {
    let mut fields = Vec::new();
    for k in 0..4 {
        fields.push(first(3.0 * k as f64 * FIELD));
        fields.push(second((3.0 * k as f64 + 1.0) * FIELD));
        // Neighbouring, but the entries before it were detected in turns.
        fields.push(second((3.0 * k as f64 + 2.0) * FIELD));
    }
    let found = decode_all(FieldOrderAction::Detect, fields);
    let faults: Vec<bool> = found.iter().map(|field| field.info.is_duplicate_field).collect();
    // A new decoder repeats first, so the first repair leaves a field out.
    assert_eq!(faults, vec![false, false, false, false, false, true, false, false, false, false]);
    for pair in found.windows(2) {
        assert_ne!(pair[0].info.is_first_field, pair[1].info.is_first_field);
    }
}

#[test]
fn decoding_waits_for_input_and_resumes() {
    let fields: Vec<Recorded> = (0..9)
        .map(|k| if k % 2 == 0 { first(k as f64 * FIELD) } else { second(k as f64 * FIELD) })
        .collect();
    let mut whole = Recording::new(fields.clone());
    let mut one = Decoder::new(spec(FieldOrderAction::Detect), double(0.0));
    let (end, expected) = whole.call(&mut one, 0, 500_000, false).unwrap();

    let mut parts = Recording::new(fields);
    let mut two = Decoder::new(spec(FieldOrderAction::Detect), double(0.0));
    let mut start = 0u64;
    let mut found = Vec::new();
    for reach in [1000usize, 100_000, 200_000, 200_001, 260_000, 380_000, 500_000] {
        let len = reach - start as usize;
        let (needed, fields) = parts.call(&mut two, start, len, false).unwrap();
        found.extend(fields);
        match needed {
            Needed::From(sample) => start = sample,
            Needed::Done(_) => unreachable!(),
        }
    }
    assert_eq!(seen(&found), seen(&expected));
    assert_eq!(end, Needed::From(start));
    assert_eq!(parts.predecoded, whole.predecoded);
    assert!(found.len() >= 4);
}

#[test]
fn a_call_that_waits_at_once_names_the_first_block() {
    let mut recording = Recording::new(vec![first(200_000.0)]);
    let mut decoder = Decoder::new(spec(FieldOrderAction::Detect), double(200_000.0));
    let (needed, fields) = recording.call(&mut decoder, 150_000, 10, false).unwrap();
    // The block boundary at or before the position, in usable blocks.
    assert_eq!(needed, Needed::From((196_608 / 30_720) * 30_720));
    assert!(fields.is_empty());
    assert!(recording.predecoded.is_empty());
}

#[test]
fn the_end_of_the_input_ends_decoding() {
    let mut recording = Recording::new(vec![first(0.0), second(FIELD), first(2.0 * FIELD)]);
    let mut decoder = Decoder::new(spec(FieldOrderAction::Detect), double(0.0));
    // Enough for the first two fields, and for some blocks of the third.
    let (needed, fields) = recording.call(&mut decoder, 0, 250_000, true).unwrap();
    assert_eq!(seen(&fields).len(), 2);
    assert_eq!(needed, Needed::Done(100_000));
    assert_eq!(
        recording.predecoded,
        vec![(0, 6, true), (1, 7, true), (3, 8, false), (3, 8, false)]
    );
}

#[test]
fn no_input_ends_decoding_at_once() {
    let mut recording = Recording::new(vec![first(0.0)]);
    let mut decoder = Decoder::new(spec(FieldOrderAction::Detect), double(12.75));
    let (needed, fields) = recording.call(&mut decoder, 0, 0, true).unwrap();
    assert_eq!(needed, Needed::Done(12));
    assert!(fields.is_empty());
    assert_eq!(recording.predecoded, vec![(0, 0, false), (0, 0, false)]);
}

#[test]
fn a_failure_ends_the_call() {
    let mut recording = Recording::new(vec![first(0.0), second(FIELD), first(2.0 * FIELD)]);
    recording.fail_at = Some(5);
    let mut decoder = Decoder::new(spec(FieldOrderAction::Detect), double(0.0));
    assert!(recording.call(&mut decoder, 0, LONG, true).is_none());
    // The next call goes on behind the field that failed.
    recording.fail_at = None;
    let start = Event::Start { window: Window { data_start: 0, len: LONG, final_chunk: false } };
    assert!(decoder.accepts(&start));
    match decoder.decode(start) {
        Action::Locate { fdoffset, offset } => {
            assert_eq!(value(fdoffset), FIELD);
            assert_eq!(offset, Some(double(FIELD)));
        }
        _ => unreachable!(),
    }
}

#[test]
fn only_answers_are_accepted() {
    let mut decoder = Decoder::<usize>::new(spec(FieldOrderAction::Detect), double(0.0));
    let window = Window { data_start: 0, len: LONG, final_chunk: false };
    let state = InterFieldState::new(None);
    let located = || Event::<usize>::Located { toffset: double(0.0), from: double(-1024.0) };
    assert!(!decoder.accepts(&located()));
    assert!(!decoder.accepts(&Event::Failed { inter_field_state: state }));
    assert!(!decoder.accepts(&Event::Predecoded { result: None, inter_field_state: state }));
    let beyond = Window { data_start: u64::MAX, len: 1, final_chunk: false };
    assert!(!decoder.accepts(&Event::Start { window: beyond }));
    assert!(decoder.accepts(&Event::Start { window }));
    decoder.decode(Event::Start { window });
    assert!(!decoder.accepts(&Event::Start { window }));
    assert!(decoder.accepts(&located()));
    decoder.decode(located());
    // All blocks are there, so a field has to come of them.
    assert!(!decoder.accepts(&Event::Predecoded { result: None, inter_field_state: state }));
    assert!(decoder.accepts(&Event::Failed { inter_field_state: state }));
}

#[test]
fn luma_has_to_be_of_the_kind_that_is_asked_for() {
    for export_raw_tbc in [false, true] {
        let spec = DecoderSpec { export_raw_tbc, ..spec(FieldOrderAction::Detect) };
        let mut recording = Recording::new(vec![first(0.0), second(FIELD)]);
        let mut decoder = Decoder::new(spec, double(0.0));
        let window = Window { data_start: 0, len: LONG, final_chunk: false };
        let mut event = Event::Start { window };
        loop {
            match decoder.decode(event) {
                Action::RenderLuma { .. } => break,
                action => event = recording.react(action),
            }
        }
        let rendered = |luma| Event::RenderedLuma { field: recording.field(0), luma };
        assert_eq!(decoder.accepts(&rendered(LumaOutput::Raw(vec![]))), export_raw_tbc);
        assert_eq!(decoder.accepts(&rendered(LumaOutput::Encoded(vec![]))), !export_raw_tbc);
        let mut unscaled = recording.field(0);
        unscaled.out_scale = None;
        let luma = LumaOutput::Encoded(vec![]);
        assert!(!decoder.accepts(&Event::RenderedLuma { field: unscaled, luma }));
    }
}

#[test]
fn a_ruling_is_known_before_a_field_is_entered() {
    let mut recording = Recording::new(vec![first(0.0), second(FIELD), second(3.0 * FIELD), first(4.0 * FIELD)]);
    let mut decoder = Decoder::new(spec(FieldOrderAction::Drop), double(0.0));
    let window = Window { data_start: 0, len: LONG, final_chunk: false };
    let mut event = Event::Start { window };
    let mut rulings = Vec::new();
    while rulings.len() < 3 {
        if let Event::Described { description } = &event {
            let ruling = decoder.ruling_on(description);
            rulings.push((ruling.write_field, ruling.decode_faults));
        }
        let action = decoder.decode(event);
        event = recording.react(action);
    }
    assert_eq!(rulings, vec![(true, None), (true, None), (false, Some(4))]);
}

#[test]
fn entries_keep_what_a_double_holds_of_a_position() {
    // One more than a double can tell apart.
    let far = Recorded { start: 9007199254740992.0, first: Some(true), valid: true };
    let recording = Recording::new(vec![first(0.0), far]);
    let mut decoder = Decoder::new(spec(FieldOrderAction::Drop), double(0.0));
    let window = Window { data_start: 0, len: 250_000, final_chunk: false };
    let mut driver = Recording::new(vec![first(0.0), second(FIELD)]);
    let mut event = Event::Start { window };
    let found = loop {
        match decoder.decode(event) {
            Action::RenderChroma { field } if field.data == 0 => {
                let mut field = recording.field(1);
                field.readloc += 1;
                event = Event::RenderedChroma { field, chroma: None };
            }
            Action::Return { fields, .. } => break fields,
            action => event = driver.react(action),
        }
    };
    assert_eq!(found[0].info.file_loc, 9007199254740992);
    assert_eq!(value(found[0].info.disk_loc), tenths(9007199254740992.0 / FIELD));
}

#[test]
fn places_on_the_disk_are_rounded() {
    let fields = vec![first(1_234.0), second(51_250.0), first(103_777.0), second(154_321.0)];
    let found = decode_all(FieldOrderAction::Detect, fields);
    let places: Vec<f64> = found.iter().map(|field| value(field.info.disk_loc)).collect();
    assert_eq!(places, vec![0.0, 1.0, 2.1]);
}

#[test]
fn waiting_again_changes_nothing() {
    let mut recording = Recording::new(vec![first(0.0), second(FIELD), first(2.0 * FIELD)]);
    let mut decoder = Decoder::new(spec(FieldOrderAction::Detect), double(0.0));
    let (needed, fields) = recording.call(&mut decoder, 0, 250_000, false).unwrap();
    assert!(!fields.is_empty());
    let asked = recording.predecoded.clone();
    for _ in 0..3 {
        let (again, more) = recording.call(&mut decoder, 0, 250_000, false).unwrap();
        assert_eq!(again, needed);
        assert!(more.is_empty());
        assert_eq!(recording.predecoded, asked);
    }
}

#[test]
fn returned_fields_are_labelled_and_in_order() {
    for action in [FieldOrderAction::Detect, FieldOrderAction::Drop, FieldOrderAction::Flip] {
        let kinds = [true, false, false, true, true, true, true, false, true, false];
        let fields = kinds
            .iter()
            .enumerate()
            .map(|(k, &kind)| Recorded { start: k as f64 * FIELD, first: Some(kind), valid: true })
            .collect();
        let found = decode_all(action, fields);
        assert!(found.len() >= 4);
        assert!(found[0].info.is_first_field);
        assert_eq!(found[0].info.seq_no, 1);
        for pair in found.windows(2) {
            assert_ne!(pair[0].info.is_first_field, pair[1].info.is_first_field);
        }
        for field in &found {
            let info = &field.info;
            let relabelled = info.is_first_field != info.detected_first_field;
            let repaired = info.decode_faults == Some(1)
                || (info.decode_faults == Some(4) && !info.is_duplicate_field);
            assert_eq!(relabelled, repaired);
            assert_eq!(info.field_phase_id % 2 == 1, info.detected_first_field);
        }
        if !matches!(action, FieldOrderAction::Detect) {
            for (k, field) in found.iter().enumerate() {
                assert_eq!(field.info.seq_no, k + 1);
            }
        }
    }
}

#[test]
fn a_field_has_to_be_addressable() {
    let far = DecoderSpec { readlen: usize::MAX, ..spec(FieldOrderAction::Detect) };
    let mut decoder = Decoder::<usize>::new(far, double(0.0));
    let window = Window { data_start: 0, len: LONG, final_chunk: true };
    decoder.decode(Event::Start { window });
    let located = Event::Located { toffset: double(0.0), from: double(-1024.0) };
    assert!(!decoder.accepts(&located));
}

#[test]
fn a_window_has_to_begin_before_the_field() {
    let mut decoder = Decoder::<usize>::new(spec(FieldOrderAction::Detect), double(0.0));
    let window = Window { data_start: 1, len: LONG, final_chunk: true };
    decoder.decode(Event::Start { window });
    let located = Event::Located { toffset: double(0.0), from: double(-1024.0) };
    assert!(!decoder.accepts(&located));
}

#[test]
fn the_picture_in_hand_can_be_seen() {
    let mut recording = Recording::new(vec![first(0.0), second(FIELD)]);
    let mut decoder = Decoder::new(spec(FieldOrderAction::Detect), double(0.0));
    let window = Window { data_start: 0, len: LONG, final_chunk: false };
    let mut event = Event::Start { window };
    loop {
        let action = decoder.decode(event);
        let rendered = matches!(action, Action::RenderChroma { .. } | Action::Describe { .. });
        assert_eq!(decoder.picture_luma().is_some(), rendered);
        if matches!(action, Action::Describe { .. }) {
            let luma = decoder.picture_luma().unwrap();
            assert!(matches!(luma, LumaOutput::Encoded(samples) if *samples == vec![0]));
            break;
        }
        event = recording.react(action);
    }
}

fn measures() -> SignalMeasures {
    SignalMeasures {
        sample_rate: double(14_318_181.0),
        black_hz: double(100.0),
        white_hz: double(1000.2),
        colour_burst_start: double(74.5),
        colour_burst_end: double(110.6),
        active_video_start: double(133.5),
        active_video_end: double(-0.2),
    }
}

fn scaled(hz: Double, out_scale: Double) -> Double {
    double(value(hz) * value(out_scale))
}

fn add_half(level: Double) -> Double {
    double(value(level) + 0.5)
}

fn number(level: OutputLevel) -> f64 {
    match level {
        OutputLevel::Raw(hz) => value(hz),
        OutputLevel::Encoded(sample) => f64::from(sample),
    }
}

#[test]
fn metadata_follows_the_first_valid_field() {
    let mut recording = Recording::new(vec![first(0.0), second(FIELD)]);
    let mut decoder = Decoder::new(spec(FieldOrderAction::Detect), double(0.0));
    let dim = |level| double(number(level) * 0.5);
    let brighten = |level| double(number(level) * 1.5);
    assert!(decoder.metadata(measures(), scaled, add_half, dim, brighten).is_none());
    recording.call(&mut decoder, 0, 250_000, false).unwrap();
    let metadata = decoder.metadata(measures(), scaled, add_half, dim, brighten).unwrap();
    assert_eq!(metadata.system, "NTSC");
    assert_eq!((metadata.field_width, metadata.field_height), (910, 263));
    assert_eq!(value(metadata.sample_rate), 14_318_181.0);
    assert_eq!(value(metadata.black_16b_ire), 100.0);
    assert_eq!(value(metadata.white_16b_ire), 3000.0);
    assert_eq!((metadata.colour_burst_start, metadata.colour_burst_end), (74, 111));
    assert_eq!((metadata.active_video_start, metadata.active_video_end), (134, 0));
    // It stays to the end of the input, and beyond, and reads the same.
    recording.call(&mut decoder, 0, 0, true).unwrap();
    let again = decoder.metadata(measures(), scaled, add_half, dim, brighten).unwrap();
    assert_eq!(again.black_16b_ire, metadata.black_16b_ire);
    assert_eq!(again.white_16b_ire, metadata.white_16b_ire);
}

#[test]
fn levels_are_held_in_the_range_of_the_output() {
    for (export_raw_tbc, black, white) in [(false, 0.0, 65535.0), (true, -40.0, 40000.0)] {
        let spec = DecoderSpec { export_raw_tbc, ..spec(FieldOrderAction::Drop) };
        let mut decoder = Decoder::new(spec, double(0.0));
        let mut recording = Recording::new(vec![first(0.0), second(FIELD)]);
        let window = Window { data_start: 0, len: 250_000, final_chunk: false };
        let mut event = Event::Start { window };
        loop {
            let action = decoder.decode(event);
            if matches!(action, Action::RenderChroma { .. }) {
                break;
            }
            event = match action {
                Action::RenderLuma { field } if export_raw_tbc => {
                    Event::RenderedLuma { field, luma: LumaOutput::Raw(vec![]) }
                }
                action => recording.react(action),
            };
        }
        let far = SignalMeasures {
            black_hz: double(-40.0),
            white_hz: double(40000.0),
            ..measures()
        };
        let keep = |level| double(number(level));
        let metadata = decoder.metadata(far, scaled, add_half, keep, keep).unwrap();
        assert_eq!(value(metadata.black_16b_ire), black);
        assert_eq!(value(metadata.white_16b_ire), white);
    }
}

#[test]
fn recordings_are_named_by_their_standard() {
    for (frame_lines, color_system, name) in [
        (LineSystem::Line525, ColorSystem::Pal, "PAL-M"),
        (LineSystem::Line525, ColorSystem::Other, "NTSC"),
        (LineSystem::Other, ColorSystem::Pal, "PAL"),
        (LineSystem::Other, ColorSystem::Other, "PAL"),
    ] {
        let spec = DecoderSpec { frame_lines, color_system, ..spec(FieldOrderAction::Drop) };
        let mut recording = Recording::new(vec![first(0.0), second(FIELD)]);
        let mut decoder = Decoder::new(spec, double(0.0));
        recording.call(&mut decoder, 0, 250_000, false).unwrap();
        let metadata = decoder
            .metadata(measures(), scaled, add_half, |level| double(number(level)), |_| double(0.0))
            .unwrap();
        assert_eq!(metadata.system, name);
    }
}

#[test]
fn luma_is_planned_by_the_settings() {
    let recording = Recording::new(vec![first(0.0), second(FIELD)]);
    let plan = |spec: DecoderSpec, number: usize, len: usize| {
        Decoder::new(spec, double(0.0)).luma_plan(&recording.field(number), len)
    };
    let plain = spec(FieldOrderAction::Drop);
    let encoded = LumaPlan { comb: false, raw: false, adjust_ire0: false, track: Some(1) };
    assert_eq!(plan(plain, 0, 910 * 263), encoded);
    // The tracks alternate.
    assert_eq!(plan(plain, 1, 910 * 263), LumaPlan { track: Some(0), ..encoded });
    let other = DecoderSpec { track_phase: Some(0), ..plain };
    assert_eq!(plan(other, 1, 910 * 263), encoded);
    let one = DecoderSpec { track_phase: None, y_comb: single(4.0), ..plain };
    assert_eq!(plan(one, 1, 910 * 263), LumaPlan { track: None, comb: true, ..encoded });
    // The level is measured in whole pictures only.
    let adjusted = DecoderSpec { ire0_adjust: true, ..plain };
    assert_eq!(plan(adjusted, 0, 910 * 263), LumaPlan { adjust_ire0: true, ..encoded });
    assert_eq!(plan(adjusted, 0, 910 * 263 - 1), encoded);
    let raw = DecoderSpec { export_raw_tbc: true, ..adjusted };
    assert_eq!(
        plan(raw, 0, 910 * 263),
        LumaPlan { comb: false, raw: true, adjust_ire0: false, track: None }
    );
}

/// The luma picture of two lines of two samples.
fn render(spec: DecoderSpec) -> LumaOutput {
    let recording = Recording::new(vec![first(0.0), second(FIELD)]);
    let mut field = recording.field(1);
    field.outlinelen = 2;
    field.outlinecount = 2;
    let luma: Vec<Single> = [1.0f32, 2.0, 5.0, 8.0].map(single).to_vec();
    let decoder = Decoder::new(spec, double(0.0));
    assert!(decoder.tells_track(&field) && decoder.comb_is_sound());
    decoder.render_luma(
        &field,
        luma,
        double(10.0),
        |current, ahead, behind| {
            assert_eq!(ahead, behind);
            single(2.0 * (sample(current) - sample(ahead)))
        },
        |current, held| single(sample(current) - sample(held) / 2.0),
        |samples| double(samples.iter().map(|&s| f64::from(sample(s))).sum::<f64>()),
        |level, track| double(value(level) + 100.0 * (track as f64 + 1.0)),
        |level, scale| (value(scale) as f32, value(level) as f32),
        |(scale, level), luma| single(sample(luma) * scale + level),
    )
}

#[test]
fn luma_is_encoded_around_its_level() {
    let plain = spec(FieldOrderAction::Drop);
    // Twice the sample, and the level of the first track.
    assert!(matches!(render(plain), LumaOutput::Encoded(s) if s == vec![112, 114, 120, 126]));
    let single_track = DecoderSpec { track_phase: None, ..plain };
    assert!(matches!(render(single_track), LumaOutput::Encoded(s) if s == vec![12, 14, 20, 26]));
    let measured = DecoderSpec { ire0_adjust: true, ..single_track };
    assert!(matches!(render(measured), LumaOutput::Encoded(s) if s == vec![18, 20, 26, 32]));
    // Every sample gives way to the other line, by two at most.
    let combed = DecoderSpec { y_comb: single(4.0), ..single_track };
    assert!(matches!(render(combed), LumaOutput::Encoded(s) if s == vec![16, 18, 16, 22]));
    let swapped = DecoderSpec { y_comb: single(100.0), ..single_track };
    assert!(matches!(render(swapped), LumaOutput::Encoded(s) if s == vec![20, 26, 12, 14]));
    let negative_zero = DecoderSpec { y_comb: single(-0.0), ..single_track };
    assert!(matches!(render(negative_zero), LumaOutput::Encoded(s) if s == vec![12, 14, 20, 26]));
}

#[test]
fn raw_luma_stays_as_it_is() {
    let raw = DecoderSpec { export_raw_tbc: true, ..spec(FieldOrderAction::Drop) };
    let bits = |values: [f32; 4]| values.map(f32::to_bits).to_vec();
    match render(raw) {
        LumaOutput::Raw(samples) => {
            let found: Vec<u32> = samples.iter().map(|s| s.bits).collect();
            assert_eq!(found, bits([1.0, 2.0, 5.0, 8.0]));
        }
        LumaOutput::Encoded(_) => unreachable!(),
    }
    match render(DecoderSpec { y_comb: single(4.0), ..raw }) {
        LumaOutput::Raw(samples) => {
            let found: Vec<u32> = samples.iter().map(|s| s.bits).collect();
            assert_eq!(found, bits([3.0, 4.0, 3.0, 6.0]));
        }
        LumaOutput::Encoded(_) => unreachable!(),
    }
}

#[test]
fn a_comb_needs_a_limit() {
    let with = |limit: f32| {
        let spec = DecoderSpec { y_comb: single(limit), ..spec(FieldOrderAction::Drop) };
        Decoder::<usize>::new(spec, double(0.0)).comb_is_sound()
    };
    assert!(with(0.0) && with(-0.0) && with(1e-45) && with(3.0) && with(f32::INFINITY));
    assert!(!with(-1e-45) && !with(-3.0) && !with(f32::NEG_INFINITY) && !with(f32::NAN));
}

#[test]
fn tracks_are_known_of_numbered_fields() {
    let recording = Recording::new(vec![first(0.0), second(FIELD)]);
    let tells = |track_phase: Option<i64>, field_number: i64, export_raw_tbc: bool| {
        let spec = DecoderSpec { track_phase, export_raw_tbc, ..spec(FieldOrderAction::Drop) };
        let mut field = recording.field(0);
        field.field_number = field_number;
        Decoder::new(spec, double(0.0)).tells_track(&field)
    };
    assert!(tells(Some(0), 0, false) && tells(Some(1), 3, false));
    assert!(tells(Some(1), -2, false) && !tells(Some(1), -1, false));
    assert!(!tells(Some(2), 0, false) && !tells(Some(-1), 0, false));
    assert!(tells(None, -1, false) && tells(Some(2), -1, true));
}
