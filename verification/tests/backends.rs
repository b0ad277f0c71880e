use constriction::backends::{
    AsReadWords, AsSeekReadWords, AsSeekWriteWords, BoundedReadWords, BoundedWriteError,
    BoundedWriteWords, Cursor, FallibleCallbackWriteWords, InfallibleCallbackWriteWords,
    IntoReadWords, IntoSeekReadWords, IntoSeekWriteWords, IteratorReadWords, PosBackend, Queue,
    ReadWords, ReverseReads, SeekBackend, SmallWordBuffer, Stack, WriteWords,
};

#[test]
fn vec_is_a_stack() {
    let mut words: Vec<u32> = Vec::new();
    assert!(ReadWords::<u32, Stack>::maybe_exhausted(&words));
    words.write(1).unwrap();
    words.write(2).unwrap();
    words.extend_from_iter(&[3, 4]).unwrap();
    assert!(!WriteWords::<u32>::maybe_full(&words));
    assert_eq!(PosBackend::<u32>::pos(&words), 4);
    assert_eq!(BoundedReadWords::<u32, Stack>::remaining(&words), 4);
    assert!(!BoundedReadWords::<u32, Stack>::is_exhausted(&words));
    assert_eq!(ReadWords::<u32, Stack>::read(&mut words), Ok(Some(4)));
    assert_eq!(ReadWords::<u32, Stack>::read(&mut words), Ok(Some(3)));
    assert_eq!(words, vec![1, 2]);
    assert_eq!(ReadWords::<u32, Stack>::read(&mut words), Ok(Some(2)));
    assert_eq!(ReadWords::<u32, Stack>::read(&mut words), Ok(Some(1)));
    assert_eq!(ReadWords::<u32, Stack>::read(&mut words), Ok(None));
    assert!(BoundedReadWords::<u32, Stack>::is_exhausted(&words));
}

#[test]
fn small_buffer_is_a_stack() {
    let mut words = SmallWordBuffer::new();
    assert!(words.maybe_exhausted());
    for word in 1..=6u32 {
        words.write(word).unwrap();
    }
    assert!(!words.maybe_full());
    assert_eq!(words.pos(), 6);
    assert_eq!(words.remaining(), 6);
    assert_eq!(words.read(), Ok(Some(6)));
    assert_eq!(words.read(), Ok(Some(5)));
    assert_eq!(words.pos(), 4);
    assert_eq!(words.take_words(), vec![1, 2, 3, 4]);
    assert_eq!(words.read(), Ok(None));
    assert!(words.is_exhausted());
}

#[test]
fn cursor_reads_as_queue_and_as_stack() {
    let mut cursor = Cursor::with_buf_and_pos(vec![10u16, 20, 30, 40], 2).unwrap();
    assert_eq!(PosBackend::<u16>::pos(&cursor), 2);
    assert_eq!(BoundedReadWords::<u16, Queue>::remaining(&cursor), 2);
    assert_eq!(BoundedReadWords::<u16, Stack>::remaining(&cursor), 2);
    assert_eq!(ReadWords::<u16, Queue>::read(&mut cursor), Ok(Some(30)));
    assert_eq!(ReadWords::<u16, Queue>::read(&mut cursor), Ok(Some(40)));
    assert_eq!(ReadWords::<u16, Queue>::read(&mut cursor), Ok(None));
    assert!(ReadWords::<u16, Queue>::maybe_exhausted(&cursor));
    assert!(BoundedReadWords::<u16, Queue>::is_exhausted(&cursor));
    assert_eq!(PosBackend::<u16>::pos(&cursor), 4);
    for expected in [40, 30, 20, 10] {
        assert_eq!(ReadWords::<u16, Stack>::read(&mut cursor), Ok(Some(expected)));
    }
    assert_eq!(ReadWords::<u16, Stack>::read(&mut cursor), Ok(None));
    assert!(ReadWords::<u16, Stack>::maybe_exhausted(&cursor));
    assert_eq!(cursor.into_buf_and_pos(), (vec![10, 20, 30, 40], 0));
}

#[test]
fn cursor_reads_by_its_own_methods() {
    let mut cursor = Cursor::with_buf_and_pos(vec![10u16, 20, 30], 1).unwrap();
    assert_eq!(cursor.read_queue::<u16>(), Some(20));
    assert_eq!(cursor.read_queue::<u16>(), Some(30));
    assert_eq!(cursor.read_queue::<u16>(), None);
    assert_eq!(cursor.read_stack::<u16>(), Some(30));
    assert_eq!(cursor.read_stack::<u16>(), Some(20));
    assert_eq!(cursor.read_stack::<u16>(), Some(10));
    assert_eq!(cursor.read_stack::<u16>(), None);
    assert_eq!(cursor.into_buf_and_pos(), (vec![10, 20, 30], 0));
}

#[test]
fn cursor_positions() {
    assert!(Cursor::with_buf_and_pos(vec![1u8, 2, 3], 4).is_err());
    assert!(Cursor::with_buf_and_pos_mut(vec![1u8, 2, 3], 4).is_err());
    assert_eq!(Cursor::with_buf_and_pos_mut(vec![1u8, 2, 3], 3).unwrap().into_buf_and_pos().1, 3);
    let cursor = Cursor::new_at_write_end(vec![1u8, 2, 3]);
    assert_eq!(PosBackend::<u8>::pos(&cursor), 3);
    assert_eq!(cursor.buf(), &vec![1, 2, 3]);
    let cursor = Cursor::new_at_write_end_mut(vec![1u8, 2, 3]);
    assert_eq!(PosBackend::<u8>::pos(&cursor), 3);
    let mut cursor = Cursor::new_at_write_beginning(vec![1u8, 2, 3]);
    assert_eq!(PosBackend::<u8>::pos(&cursor), 0);
    assert_eq!(SeekBackend::<u8>::seek(&mut cursor, 3), Ok(()));
    assert_eq!(PosBackend::<u8>::pos(&cursor), 3);
    assert_eq!(SeekBackend::<u8>::seek(&mut cursor, 4), Err(()));
    assert_eq!(PosBackend::<u8>::pos(&cursor), 3);

    let view = cursor.as_view::<u8>();
    assert_eq!(view.into_buf_and_pos(), (&[1u8, 2, 3][..], 3));
    let copy = cursor.cloned::<u8>();
    assert_eq!(copy.into_buf_and_pos(), (vec![1, 2, 3], 3));
    let mut view = cursor.as_mut_view::<u8>();
    assert_eq!(SeekBackend::<u8>::seek(&mut view, 1), Ok(()));
    assert_eq!(view.write(9), Ok(()));
    assert_eq!(cursor.into_buf_and_pos(), (vec![1, 9, 3], 3));
}

#[test]
fn cursor_writes_until_full() {
    let mut cursor = Cursor::new_at_write_beginning(vec![0u32; 3]);
    assert_eq!(cursor.space(), 3);
    assert!(!cursor.is_full());
    assert_eq!(cursor.write(7), Ok(()));
    assert_eq!(cursor.write(8), Ok(()));
    assert_eq!(cursor.space(), 1);
    assert_eq!(cursor.write(9), Ok(()));
    assert!(cursor.is_full());
    assert!(WriteWords::<u32>::maybe_full(&cursor));
    assert_eq!(cursor.write(10), Err(BoundedWriteError::OutOfSpace));
    assert_eq!(BoundedWriteError::OutOfSpace.message(), "Out of space.");
    assert_eq!(cursor.into_buf_and_pos(), (vec![7, 8, 9], 3));
}

#[test]
fn reversed_cursor_reads_the_same_words() {
    let cursor = Cursor::with_buf_and_pos(vec![1u32, 2, 3, 4, 5], 3).unwrap();
    let mut as_stack = cursor.cloned::<u32>();
    let mut reversed = cursor.into_reversed::<u32>();
    assert_eq!(reversed.0.buf(), &vec![5, 4, 3, 2, 1]);
    assert_eq!(PosBackend::<u32>::pos(&reversed), 2);
    assert_eq!(BoundedReadWords::<u32, Stack>::remaining(&reversed), 3);
    for _ in 0..4 {
        // The inner cursor reads as a queue what the cursor before read as
        // a stack; the adapter offers it as a stack again.
        assert_eq!(
            ReadWords::<u32, Stack>::read(&mut reversed),
            ReadWords::<u32, Stack>::read(&mut as_stack)
        );
    }
    assert!(ReadWords::<u32, Stack>::maybe_exhausted(&reversed));
    assert!(BoundedReadWords::<u32, Stack>::is_exhausted(&reversed));
    assert_eq!(SeekBackend::<u32>::seek(&mut reversed, 2), Ok(()));
    assert_eq!(SeekBackend::<u32>::seek(&mut reversed, 6), Err(()));
    let back = reversed.into_reversed::<u32>();
    assert_eq!(back.into_buf_and_pos(), (vec![1, 2, 3, 4, 5], 3));
}

#[test]
fn reverse_reads_of_a_stack_is_a_queue() {
    let mut adapter = ReverseReads(vec![1u32, 2, 3]);
    adapter.write(4).unwrap();
    assert_eq!(ReadWords::<u32, Queue>::read(&mut adapter), Ok(Some(4)));
    assert_eq!(BoundedReadWords::<u32, Queue>::remaining(&adapter), 3);
    assert!(!BoundedReadWords::<u32, Queue>::is_exhausted(&adapter));
    assert!(!ReadWords::<u32, Queue>::maybe_exhausted(&adapter));
    assert_eq!(adapter.0, vec![1, 2, 3]);
}

#[test]
fn sinks_take_several_words_at_once() {
    let mut words = vec![1u32];
    words.extend_from_iter(&[2, 3]).unwrap();
    assert_eq!(words, vec![1, 2, 3]);

    let mut adapter = ReverseReads(vec![1u32]);
    adapter.extend_from_iter(&[2, 3]).unwrap();
    assert_eq!(adapter.0, vec![1, 2, 3]);

    let mut cursor = Cursor::new_at_write_beginning(vec![0u32; 3]);
    assert_eq!(cursor.extend_from_iter(&[7, 8]), Ok(()));
    assert_eq!(cursor.extend_from_iter(&[9, 10]), Err(BoundedWriteError::OutOfSpace));
    assert_eq!(cursor.into_buf_and_pos(), (vec![7, 8, 9], 3));

    let mut small = SmallWordBuffer::new();
    assert_eq!(small.extend_from_iter(&[4, 5]), Ok(()));
    assert_eq!(ReadWords::<u32, Stack>::read(&mut small), Ok(Some(5)));
    assert_eq!(ReadWords::<u32, Stack>::read(&mut small), Ok(Some(4)));
    assert_eq!(ReadWords::<u32, Stack>::read(&mut small), Ok(None));
}

#[test]
fn reverse_reads_answers_as_the_wrapped_backend() {
    let mut adapter = ReverseReads(vec![7u32]);
    assert!(!ReadWords::<u32, Queue>::maybe_exhausted(&adapter));
    assert_eq!(ReadWords::<u32, Queue>::read(&mut adapter), Ok(Some(7)));
    assert!(ReadWords::<u32, Queue>::maybe_exhausted(&adapter));
    assert_eq!(ReadWords::<u32, Queue>::read(&mut adapter), Ok(None));

    let mut cursor = Cursor::new_at_write_beginning(vec![1u32, 2]);
    assert!(ReadWords::<u32, Stack>::maybe_exhausted(&cursor));
    assert!(!ReadWords::<u32, Queue>::maybe_exhausted(&cursor));
    assert_eq!(ReadWords::<u32, Queue>::read(&mut cursor), Ok(Some(1)));
    assert!(!ReadWords::<u32, Stack>::maybe_exhausted(&cursor));
    let mut adapter = ReverseReads(cursor);
    assert!(!ReadWords::<u32, Stack>::maybe_exhausted(&adapter));
    assert_eq!(ReadWords::<u32, Stack>::read(&mut adapter), Ok(Some(2)));
    assert!(ReadWords::<u32, Stack>::maybe_exhausted(&adapter));
    assert_eq!(ReadWords::<u32, Stack>::read(&mut adapter), Ok(None));
    assert!(!ReadWords::<u32, Queue>::maybe_exhausted(&adapter));
    assert_eq!(adapter.0.into_buf_and_pos(), (vec![1, 2], 2));
}

#[test]
fn buffers_as_backends() {
    let words = vec![1u32, 2, 3];
    let mut stack = AsReadWords::<u32, Stack>::as_read_backend(&words);
    assert_eq!(ReadWords::<u32, Stack>::read(&mut stack), Ok(Some(3)));
    let mut queue = AsReadWords::<u32, Queue>::as_read_backend(&words);
    assert_eq!(ReadWords::<u32, Queue>::read(&mut queue), Ok(Some(1)));
    let mut queue = AsSeekReadWords::<u32, Queue>::as_seek_read_backend(&words);
    assert_eq!(SeekBackend::<u32>::seek(&mut queue, 2), Ok(()));
    assert_eq!(ReadWords::<u32, Queue>::read(&mut queue), Ok(Some(3)));

    let mut stack = IntoReadWords::<u32, Stack>::into_read_backend(words.clone());
    assert_eq!(ReadWords::<u32, Stack>::read(&mut stack), Ok(Some(3)));
    let mut queue = IntoReadWords::<u32, Queue>::into_read_backend(words.clone());
    assert_eq!(ReadWords::<u32, Queue>::read(&mut queue), Ok(Some(1)));
    let mut stack = IntoSeekReadWords::<u32, Stack>::into_seek_read_backend(words.clone());
    assert_eq!(SeekBackend::<u32>::seek(&mut stack, 1), Ok(()));
    assert_eq!(ReadWords::<u32, Stack>::read(&mut stack), Ok(Some(1)));

    let mut sink = IntoSeekWriteWords::<u32, Queue>::into_seek_write_backend(words.clone());
    assert_eq!(sink.write(9), Ok(()));
    assert_eq!(sink.into_buf_and_pos(), (vec![9, 2, 3], 1));
    let mut sink = IntoSeekWriteWords::<u32, Stack>::into_seek_write_backend(words.clone());
    assert_eq!(sink.write(9), Err(BoundedWriteError::OutOfSpace));

    let mut words = words;
    {
        let mut sink = AsSeekWriteWords::<u32, Queue>::as_seek_write_backend(&mut words);
        assert_eq!(sink.write(7), Ok(()));
        assert_eq!(sink.write(8), Ok(()));
    }
    assert_eq!(words, vec![7, 8, 3]);
    {
        let mut sink = AsSeekWriteWords::<u32, Stack>::as_seek_write_backend(&mut words);
        assert_eq!(sink.write(7), Err(BoundedWriteError::OutOfSpace));
        assert_eq!(SeekBackend::<u32>::seek(&mut sink, 2), Ok(()));
        assert_eq!(sink.write(6), Ok(()));
    }
    assert_eq!(words, vec![7, 8, 6]);
}

#[test]
fn iterator_as_source() {
    let items: Vec<Result<u32, &str>> = vec![Ok(1), Ok(2), Err("broken"), Ok(3)];
    let mut source = IteratorReadWords::new(items.into_iter());
    assert!(ReadWords::<u32, Queue>::maybe_exhausted(&source));
    assert_eq!(ReadWords::<u32, Queue>::read(&mut source), Ok(Some(1)));
    assert_eq!(ReadWords::<u32, Stack>::read(&mut source), Ok(Some(2)));
    assert_eq!(ReadWords::<u32, Queue>::read(&mut source), Err("broken"));
    assert_eq!(ReadWords::<u32, Queue>::read(&mut source), Ok(Some(3)));
    assert_eq!(ReadWords::<u32, Queue>::read(&mut source), Ok(None));
    assert_eq!(ReadWords::<u32, Queue>::read(&mut source), Ok(None));
    assert_eq!(source.into_iter().next(), None);

    let mut source = IteratorReadWords::new(vec![Ok::<u8, ()>(9)].into_iter());
    assert_eq!(source.read(), Ok(Some(9)));
    assert_eq!(source.read(), Ok(None));
}

#[test]
fn iterator_source_asks_no_more_after_the_end() {
    let mut calls = 0;
    {
        let iterator = std::iter::from_fn(|| {
            calls += 1;
            if calls == 1 {
                Some(Ok::<u32, ()>(5))
            } else {
                None
            }
        });
        let mut source = IteratorReadWords::new(iterator);
        assert_eq!(ReadWords::<u32, Queue>::read(&mut source), Ok(Some(5)));
        assert_eq!(ReadWords::<u32, Queue>::read(&mut source), Ok(None));
        assert_eq!(ReadWords::<u32, Queue>::read(&mut source), Ok(None));
        assert_eq!(ReadWords::<u32, Queue>::read(&mut source), Ok(None));
    }
    assert_eq!(calls, 2);
}

#[test]
fn callbacks_as_sinks() {
    let mut taken = Vec::new();
    {
        let mut sink = FallibleCallbackWriteWords::new(|word: u32| {
            if word < 3 {
                taken.push(word);
                Ok(())
            } else {
                Err("too large")
            }
        });
        assert_eq!(sink.write(1), Ok(()));
        assert_eq!(sink.write(2), Ok(()));
        assert_eq!(sink.extend_from_iter(&[0, 5, 1]), Err("too large"));
        assert!(WriteWords::<u32>::maybe_full(&sink));
        let _callback = sink.into_inner();
    }
    assert_eq!(taken, vec![1, 2, 0]);

    let mut taken = Vec::new();
    {
        let mut sink = InfallibleCallbackWriteWords::new(|word: u16| taken.push(word));
        sink.write(1).unwrap();
        sink.extend_from_iter(&[2, 3]).unwrap();
        let mut callback = sink.into_inner();
        callback(4);
    }
    assert_eq!(taken, vec![1, 2, 3, 4]);
}
